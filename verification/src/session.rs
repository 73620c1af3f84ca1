//! The session: exactly three tables (raw, normalized, last result) with
//! their lifecycle. Each operation replaces its table wholesale or leaves
//! everything untouched; nothing is partially updated.

use vstd::prelude::*;

use crate::agg::PivotScan;
use crate::agg::agg_err;
use crate::agg::dims_resolved;
use crate::agg::is_aggregate_of;
use crate::agg::is_pivot_of;
use crate::agg::pivot_scan;
use crate::agg::search_table;
use crate::etl::mapping_view;
use crate::etl::normalize;
use crate::etl::normalize_spec;
use crate::io_text::csv_out;
use crate::io_text::csv_table;
use crate::io_text::json_table;
use crate::io_text::parse_delimited;
use crate::io_text::string_from_chars;
use crate::io_text::to_delimited;
use crate::io_text::to_json;
use crate::query::Query;
use crate::query::kept_rows;
use crate::query::select_rows;
use crate::table::ColV;
use crate::table::Table;
use crate::table::bounded_table;
use crate::table::cellseq;
use crate::table::find_col;
use crate::table::slice_hi;
use crate::table::slice_lo;
use crate::table::table_rows;
use crate::table::wf_table;
use crate::value::ColumnType;
use crate::value::EngineError;
use crate::value::ErrV;
use crate::value::ValV;
use crate::value::Value;

verus! {

/// How many rows a query returns as its immediate display preview.
pub const PREVIEW_ROWS: usize = 30;

/// The distinct values of a cell sequence, first seen first.
pub open spec fn dedup_vals(s: Seq<ValV>) -> Seq<ValV>
    decreases s.len(),
{
    if s.len() == 0 {
        Seq::empty()
    } else {
        let p = dedup_vals(s.drop_last());
        if p.contains(s.last()) {
            p
        } else {
            p.push(s.last())
        }
    }
}

/// The three tables of one session.
pub struct StateStore {
    /// The as-loaded raw table, replaced wholesale by every load.
    pub records: Table,
    /// The normalized table, replaced wholesale by every successful
    /// normalization and never partially written.
    pub standard: Table,
    /// The full output of the most recent query; pagination reads it.
    pub result: Table,
}

impl StateStore {
    pub open spec fn wf(&self) -> bool {
        wf_table(self.records@) && bounded_table(self.records@) && wf_table(self.standard@)
            && bounded_table(self.standard@) && wf_table(self.result@)
    }

    /// A fresh session: three empty tables.
    pub fn default() -> (r: StateStore)
        ensures
            r.wf(),
            r.records@.len() == 0 && r.standard@.len() == 0 && r.result@.len() == 0,
    {
        StateStore { records: Table::new(), standard: Table::new(), result: Table::new() }
    }

    /// Loads delimited text into the raw table; on failure nothing changes.
    pub fn read_csv(&mut self, text: &str) -> (r: Result<(), EngineError>)
        requires
            old(self).wf(),
        ensures
            final(self).wf(),
            final(self).standard@ == old(self).standard@,
            final(self).result@ == old(self).result@,
            match r {
                Ok(_) => csv_table(text@) == Ok::<Seq<ColV>, ErrV>(final(self).records@),
                Err(e) => csv_table(text@) == Err::<Seq<ColV>, ErrV>(e@) && final(self).records@
                    == old(self).records@,
            },
    {
        let chars = crate::io_text::chars_of_str(text);
        match parse_delimited(&chars) {
            Ok(t) => {
                self.records = t;
                Ok(())
            },
            Err(e) => Err(e),
        }
    }

    /// The whole result table as delimited text, for export.
    pub fn save_csv(&self) -> (r: String)
        requires
            self.wf(),
        ensures
            r@ == csv_out(self.result@),
    {
        let chars = to_delimited(&self.result);
        string_from_chars(&chars)
    }

    /// The raw table's row count.
    pub fn count(&self) -> (r: usize)
        ensures
            r == table_rows(self.records@),
    {
        self.records.row_count()
    }

    /// The first raw row with each column's name and kind, for the
    /// caller's type-mapping form; it reflects the raw table.
    pub fn columns(&self) -> (r: Table)
        requires
            self.wf(),
        ensures
            r@.len() == self.records@.len(),
            forall|i: int|
                0 <= i < r@.len() ==> (#[trigger] r@[i]).name == self.records@[i].name && r@[i].kind
                    == self.records@[i].kind,
    {
        self.records.head(1)
    }

    /// The distinct values of a normalized column, first seen first.
    pub fn column_unique(&self, name: &Vec<char>) -> (r: Result<Vec<Value>, EngineError>)
        requires
            self.wf(),
        ensures
            match r {
                Ok(vs) => find_col(self.standard@, name@) is Some && cellseq(vs@) == dedup_vals(
                    self.standard@[find_col(self.standard@, name@)->Some_0].cells,
                ),
                Err(e) => find_col(self.standard@, name@) is None && e@ == ErrV::NotFound,
            },
    {
        let ci = match self.standard.col_index(name) {
            None => {
                return Err(EngineError::NotFound);
            },
            Some(ci) => ci,
        };
        let col = &self.standard.cols[ci];
        let ghost cellsv = self.standard@[ci as int].cells;
        let n = col.cells.len();
        let mut out: Vec<Value> = Vec::new();
        let mut r: usize = 0;
        proof {
            assert(cellsv.take(0) =~= Seq::<ValV>::empty());
            assert(cellseq(out@) =~= Seq::<ValV>::empty());
        }
        while r < n
            invariant
                0 <= r <= n,
                ci < self.standard@.len(),
                col == &self.standard.cols@[ci as int],
                self.standard@.len() == self.standard.cols@.len(),
                n == col.cells@.len(),
                cellsv == self.standard@[ci as int].cells,
                cellsv.len() == n,
                cellseq(out@) == dedup_vals(cellsv.take(r as int)),
            decreases n - r,
        {
            let v = &col.cells[r];
            proof {
                assert(cellsv.take(r + 1).drop_last() =~= cellsv.take(r as int));
                assert(cellsv.take(r + 1).last() == v@);
            }
            let mut seen = false;
            let mut k: usize = 0;
            while k < out.len()
                invariant
                    0 <= k <= out@.len(),
                    r < n == col.cells@.len(),
                    col == &self.standard.cols@[ci as int],
                    ci < self.standard@.len(),
                    self.standard@.len() == self.standard.cols@.len(),
                    cellsv == self.standard@[ci as int].cells,
                    seen == exists|x: int| 0 <= x < k && cellseq(out@)[x] == v@,
                    v == &col.cells@[r as int],
                decreases out@.len() - k,
            {
                if crate::table::val_eq(&out[k], v) {
                    proof {
                        assert(cellseq(out@)[k as int] == v@);
                    }
                    seen = true;
                }
                k = k + 1;
            }
            if !seen {
                out.push(v.dup());
                proof {
                    assert(cellseq(out@) =~= cellseq(out@.drop_last()).push(out@.last()@));
                }
            }
            r = r + 1;
        }
        proof {
            assert(cellsv.take(n as int) =~= cellsv);
        }
        Ok(out)
    }

    /// The first `count` raw rows.
    pub fn preview(&self, count: usize) -> (r: Table)
        requires
            self.wf(),
        ensures
            r@.len() == self.records@.len(),
            wf_table(r@),
            forall|i: int|
                0 <= i < r@.len() ==> (#[trigger] r@[i]).name == self.records@[i].name && r@[i].kind
                    == self.records@[i].kind && r@[i].cells == self.records@[i].cells.subrange(
                    0,
                    slice_hi(self.records@, 0, count as int),
                ),
    {
        self.records.head(count)
    }

    /// Normalizes the raw table under `mapping`. The call is atomic: on any
    /// failure the previous normalized table is untouched.
    pub fn etl(&mut self, mapping: &Vec<(Vec<char>, ColumnType)>) -> (r: Result<(), EngineError>)
        requires
            old(self).wf(),
        ensures
            final(self).wf(),
            final(self).records@ == old(self).records@,
            final(self).result@ == old(self).result@,
            match r {
                Ok(_) => normalize_spec(old(self).records@, mapping_view(mapping@)) == Ok::<
                    Seq<ColV>,
                    ErrV,
                >(final(self).standard@),
                Err(e) => normalize_spec(old(self).records@, mapping_view(mapping@)) == Err::<
                    Seq<ColV>,
                    ErrV,
                >(e@) && final(self).standard@ == old(self).standard@,
            },
    {
        match normalize(&self.records, mapping) {
            Ok(t) => {
                self.standard = t;
                Ok(())
            },
            Err(e) => Err(e),
        }
    }

    /// Runs a query against the normalized table: filter, then pivot or
    /// aggregate or pass through. On success the full shaped table replaces
    /// the result and the first thirty rows come back as a preview; on
    /// failure everything is untouched.
    pub fn search(&mut self, q: &Query) -> (res: Result<Table, EngineError>)
        requires
            old(self).wf(),
        ensures
            final(self).wf(),
            final(self).records@ == old(self).records@,
            final(self).standard@ == old(self).standard@,
            ({
                let t = old(self).standard@;
                let ft = select_rows(t, kept_rows(t, q.search@, table_rows(t)));
                let pivotmode = q.dimensions.columns@.len() > 0 && q.dimensions.rows@.len() > 0;
                let aggmode = !pivotmode && q.dimensions.rows@.len() > 0;
                match res {
                    Ok(prev) => {
                        let out = final(self).result@;
                        wf_table(out) && (if pivotmode {
                            match pivot_scan(
                                ft,
                                q.dimensions.rows@[0]@,
                                q.dimensions.columns@[0]@,
                                q.metrics@,
                                0,
                            ) {
                                PivotScan::Found(i) => is_pivot_of(
                                    out,
                                    ft,
                                    find_col(ft, q.dimensions.rows@[0]@)->Some_0,
                                    find_col(ft, q.dimensions.columns@[0]@)->Some_0,
                                    find_col(ft, q.metrics@[i].index@)->Some_0,
                                    q.metrics@[i].mode,
                                ),
                                PivotScan::Nothing => out == ft,
                                PivotScan::NotImpl => false,
                            }
                        } else if aggmode {
                            agg_err(ft, q.dimensions.rows@, q.metrics@) is None && is_aggregate_of(
                                out,
                                ft,
                                dims_resolved(ft, q.dimensions.rows@),
                                q.metrics@,
                            )
                        } else {
                            out == ft
                        }) && prev@.len() == out.len() && (forall|i: int|
                            0 <= i < out.len() ==> (#[trigger] prev@[i]).name == out[i].name
                                && prev@[i].kind == out[i].kind && prev@[i].cells
                                == out[i].cells.subrange(
                                0,
                                slice_hi(out, 0, PREVIEW_ROWS as int),
                            ))
                    },
                    Err(e) => final(self).result@ == old(self).result@ && (if pivotmode {
                        pivot_scan(
                            ft,
                            q.dimensions.rows@[0]@,
                            q.dimensions.columns@[0]@,
                            q.metrics@,
                            0,
                        ) == PivotScan::NotImpl && e@ == ErrV::NotImplemented
                    } else if aggmode {
                        agg_err(ft, q.dimensions.rows@, q.metrics@) == Some(e@)
                    } else {
                        false
                    }),
                }
            }),
    {
        match search_table(&self.standard, q) {
            Ok(full) => {
                self.result = full;
                let prev = self.result.head(PREVIEW_ROWS);
                Ok(prev)
            },
            Err(e) => Err(e),
        }
    }

    /// Rows `[start, start+limit)` of the result table, clamped: a start at
    /// or past the result's row count gives an empty row set, never an
    /// error.
    pub fn records(&self, start: usize, limit: usize) -> (r: Table)
        requires
            self.wf(),
        ensures
            r@.len() == self.result@.len(),
            wf_table(r@),
            table_rows(r@) == slice_hi(self.result@, start as int, limit as int) - slice_lo(
                self.result@,
                start as int,
            ),
            forall|i: int|
                0 <= i < r@.len() ==> (#[trigger] r@[i]).name == self.result@[i].name && r@[i].kind
                    == self.result@[i].kind && r@[i].cells == self.result@[i].cells.subrange(
                    slice_lo(self.result@, start as int),
                    slice_hi(self.result@, start as int, limit as int),
                ),
            start >= table_rows(self.result@) ==> table_rows(r@) == 0,
    {
        self.result.slice(start, limit)
    }

    /// The row-oriented JSON text of a table, for display or transport.
    pub fn to_string(&self, t: &Table) -> (r: String)
        requires
            wf_table(t@),
        ensures
            r@ == json_table(t@),
    {
        let chars = to_json(t);
        string_from_chars(&chars)
    }
}

} // verus!
