//! Grouping, aggregation and pivoting of the filtered rows, and the whole
//! query pipeline: filter, then aggregate or pivot, then sort ascending by
//! the grouping key.

use vstd::prelude::*;

use crate::etl::trunc_div;
use crate::order::key_le;
use crate::order::key_le_x;
use crate::query::FilterItem;
use crate::query::Metric;
use crate::query::MetricMode;
use crate::query::Query;
use crate::query::filter_table;
use crate::query::kept_rows;
use crate::query::select_rows;
use crate::table::ColV;
use crate::table::Column;
use crate::table::Table;
use crate::table::UNITS_BOUND;
use crate::table::bounded_col;
use crate::table::bounded_table;
use crate::table::cell_bounded;
use crate::table::cell_ok;
use crate::table::cellseq;
use crate::table::chars_eq;
use crate::table::dup_chars;
use crate::table::find_col;
use crate::table::table_rows;
use crate::table::val_eq;
use crate::table::wf_col;
use crate::table::wf_table;
use crate::text::val_text;
use crate::value::DataKind;
use crate::value::EngineError;
use crate::value::ErrV;
use crate::value::ValV;
use crate::value::Value;

verus! {

/// Whether `mode` can aggregate a column of kind `k`.
pub open spec fn metric_ok(k: DataKind, mode: MetricMode) -> bool {
    match mode {
        MetricMode::Sum | MetricMode::Avg => k == DataKind::Int || k == DataKind::Float,
        MetricMode::Rate => false,
        _ => true,
    }
}

/// The kind of the aggregated column.
pub open spec fn metric_kind(k: DataKind, mode: MetricMode) -> DataKind {
    match mode {
        MetricMode::Sum | MetricMode::Max | MetricMode::Min => k,
        MetricMode::Avg => DataKind::Float,
        _ => DataKind::Int,
    }
}

/// The number a cell contributes to a sum; missing cells contribute nothing.
pub open spec fn cell_num(v: ValV) -> int {
    match v {
        ValV::Int(n) => n,
        ValV::Float(u) => u,
        _ => 0,
    }
}

pub open spec fn sum_cells(cells: Seq<ValV>, idxs: Seq<int>) -> int
    decreases idxs.len(),
{
    if idxs.len() == 0 {
        0
    } else {
        sum_cells(cells, idxs.drop_last()) + cell_num(cells[idxs.last()])
    }
}

/// The number of present values among the selected cells.
pub open spec fn count_nn(cells: Seq<ValV>, idxs: Seq<int>) -> int
    decreases idxs.len(),
{
    if idxs.len() == 0 {
        0
    } else {
        let one: int = if cells[idxs.last()] is Null {
            0
        } else {
            1
        };
        count_nn(cells, idxs.drop_last()) + one
    }
}

/// The least (or greatest) present value among the selected cells.
pub open spec fn best_cell(cells: Seq<ValV>, idxs: Seq<int>, want_min: bool) -> Option<ValV>
    decreases idxs.len(),
{
    if idxs.len() == 0 {
        None
    } else {
        let p = best_cell(cells, idxs.drop_last(), want_min);
        let c = cells[idxs.last()];
        if c is Null {
            p
        } else {
            match p {
                None => Some(c),
                Some(q) => if want_min {
                    if crate::order::val_le(c, q) {
                        Some(c)
                    } else {
                        Some(q)
                    }
                } else {
                    if crate::order::val_le(q, c) {
                        Some(c)
                    } else {
                        Some(q)
                    }
                },
            }
        }
    }
}

/// The aggregated value of one group: sums skip missing cells (an all-null
/// group sums to zero); count counts present cells; min and max return the
/// extreme present value or nothing; the mean truncates toward zero in
/// micro-units.
pub open spec fn agg_val(mode: MetricMode, k: DataKind, cells: Seq<ValV>, idxs: Seq<int>) -> ValV {
    match mode {
        MetricMode::Sum => if k == DataKind::Float {
            ValV::Float(sum_cells(cells, idxs))
        } else {
            ValV::Int(sum_cells(cells, idxs))
        },
        MetricMode::Count => ValV::Int(count_nn(cells, idxs)),
        MetricMode::Max => match best_cell(cells, idxs, false) {
            None => ValV::Null,
            Some(c) => c,
        },
        MetricMode::Min => match best_cell(cells, idxs, true) {
            None => ValV::Null,
            Some(c) => c,
        },
        MetricMode::Avg => {
            let n = count_nn(cells, idxs);
            if n == 0 {
                ValV::Null
            } else {
                let scale: int = if k == DataKind::Int {
                    1000000
                } else {
                    1
                };
                ValV::Float(trunc_div(sum_cells(cells, idxs) * scale, n))
            }
        },
        MetricMode::Rate => ValV::Null,
    }
}

/// The grouping key of row `r`: its cells in the dimension columns.
pub open spec fn row_key(t: Seq<ColV>, dims: Seq<int>, r: int) -> Seq<ValV> {
    Seq::new(dims.len(), |j: int| t[dims[j]].cells[r])
}

pub open spec fn all_keys(t: Seq<ColV>, dims: Seq<int>) -> Seq<Seq<ValV>> {
    Seq::new(table_rows(t) as nat, |r: int| row_key(t, dims, r))
}

/// The distinct keys, first occurrence first.
pub open spec fn dedup_keys(ks: Seq<Seq<ValV>>) -> Seq<Seq<ValV>>
    decreases ks.len(),
{
    if ks.len() == 0 {
        Seq::empty()
    } else {
        let p = dedup_keys(ks.drop_last());
        if p.contains(ks.last()) {
            p
        } else {
            p.push(ks.last())
        }
    }
}

/// Insertion into a key sequence sorted ascending.
pub open spec fn insert_sorted(ks: Seq<Seq<ValV>>, k: Seq<ValV>) -> Seq<Seq<ValV>>
    decreases ks.len(),
{
    if ks.len() == 0 {
        seq![k]
    } else if key_le(k, ks[0]) {
        seq![k] + ks
    } else {
        seq![ks[0]] + insert_sorted(ks.skip(1), k)
    }
}

/// Insertion sort of the grouping keys, ascending.
pub open spec fn sort_keys(ks: Seq<Seq<ValV>>) -> Seq<Seq<ValV>>
    decreases ks.len(),
{
    if ks.len() == 0 {
        Seq::empty()
    } else {
        insert_sorted(sort_keys(ks.drop_last()), ks.last())
    }
}

/// The rows among the first `n` whose key is `key`, in order.
pub open spec fn rows_matching(t: Seq<ColV>, dims: Seq<int>, key: Seq<ValV>, n: int) -> Seq<int>
    decreases n,
{
    if n <= 0 {
        Seq::empty()
    } else {
        rows_matching(t, dims, key, n - 1) + (if row_key(t, dims, n - 1) == key {
            seq![n - 1]
        } else {
            Seq::empty()
        })
    }
}

/// The sorted keys a grouping of `t` by `dims` produces.
pub open spec fn group_keys(t: Seq<ColV>, dims: Seq<int>) -> Seq<Seq<ValV>> {
    sort_keys(dedup_keys(all_keys(t, dims)))
}

/// The resolved column index of each dimension name.
pub open spec fn dims_resolved(t: Seq<ColV>, names: Seq<Vec<char>>) -> Seq<int> {
    Seq::new(names.len(), |j: int| find_col(t, names[j]@)->Some_0)
}

/// What the aggregate of `t` by `dims` with metrics `ms` is: one row per
/// distinct key, ascending; the dimension columns carry the keys, and each
/// metric column carries its aggregate over the rows of that key.
pub open spec fn is_aggregate_of(
    out: Seq<ColV>,
    t: Seq<ColV>,
    dims: Seq<int>,
    ms: Seq<Metric>,
) -> bool {
    let skeys = group_keys(t, dims);
    out.len() == dims.len() + ms.len() && (forall|j: int|
        0 <= j < dims.len() ==> (#[trigger] out[j]).name == t[dims[j]].name && out[j].kind
            == t[dims[j]].kind && out[j].cells == Seq::new(skeys.len(), |r: int| skeys[r][j]))
        && (forall|j: int|
        0 <= j < ms.len() ==> {
            let ci = find_col(t, ms[j].index@)->Some_0;
            (#[trigger] out[dims.len() + j]).name == ms[j].index@ && out[dims.len() + j].kind
                == metric_kind(t[ci].kind, ms[j].mode) && out[dims.len() + j].cells == Seq::new(
                skeys.len(),
                |r: int|
                    agg_val(
                        ms[j].mode,
                        t[ci].kind,
                        t[ci].cells,
                        rows_matching(t, dims, skeys[r], table_rows(t)),
                    ),
            )
        })
}

/// The error an aggregate-mode query reports, if any: the unimplemented
/// rate first, then a missing column, then an inapplicable mode, then a
/// repeated output column name.
pub open spec fn agg_err(t: Seq<ColV>, names: Seq<Vec<char>>, ms: Seq<Metric>) -> Option<ErrV> {
    if exists|j: int| 0 <= j < ms.len() && (#[trigger] ms[j].mode) == MetricMode::Rate {
        Some(ErrV::NotImplemented)
    } else if exists|j: int| 0 <= j < names.len() && find_col(t, (#[trigger] names[j])@) is None {
        Some(ErrV::NotFound)
    } else if exists|j: int| 0 <= j < ms.len() && find_col(t, (#[trigger] ms[j].index)@) is None {
        Some(ErrV::NotFound)
    } else if exists|j: int|
        0 <= j < ms.len() && !metric_ok(
            t[find_col(t, (#[trigger] ms[j].index)@)->Some_0].kind,
            ms[j].mode,
        ) {
        Some(ErrV::UnsupportedMetric)
    } else if exists|a: int, b: int|
        0 <= a < b < names.len() + ms.len() && agg_name(names, ms, a) == agg_name(names, ms, b) {
        Some(ErrV::BadInput)
    } else {
        None
    }
}

/// The name of output column `j` of an aggregate.
pub open spec fn agg_name(names: Seq<Vec<char>>, ms: Seq<Metric>, j: int) -> Seq<char> {
    if j < names.len() {
        names[j]@
    } else {
        ms[j - names.len()].index@
    }
}

/// The models of a sequence of keys.
pub open spec fn keysv(ks: Seq<Vec<Value>>) -> Seq<Seq<ValV>> {
    Seq::new(ks.len(), |i: int| cellseq(ks[i]@))
}

/// A found column bears the looked-up name.
pub proof fn lemma_find_col_name(t: Seq<ColV>, name: Seq<char>, i: int)
    requires
        0 <= i <= t.len(),
        (crate::table::find_col_from(t, name, i) is Some),
    ensures
        ({
            let x = crate::table::find_col_from(t, name, i)->Some_0;
            i <= x < t.len() && t[x].name == name
        }),
    decreases t.len() - i,
{
    if i < t.len() && t[i].name != name {
        lemma_find_col_name(t, name, i + 1);
    }
}

proof fn lemma_dedup_sub(ks: Seq<Seq<ValV>>)
    ensures
        forall|x: Seq<ValV>| dedup_keys(ks).contains(x) ==> ks.contains(x),
        forall|x: Seq<ValV>| ks.contains(x) ==> dedup_keys(ks).contains(x),
    decreases ks.len(),
{
    if ks.len() > 0 {
        lemma_dedup_sub(ks.drop_last());
        assert forall|x: Seq<ValV>| dedup_keys(ks).contains(x) implies ks.contains(x) by {
            let p = dedup_keys(ks.drop_last());
            if p.contains(x) {
                assert(ks.drop_last().contains(x));
                let i = choose|i: int| 0 <= i < ks.drop_last().len() && ks.drop_last()[i] == x;
                assert(ks[i] == x);
            } else {
                assert(x == ks.last());
                assert(ks[ks.len() - 1] == x);
            }
        }
        assert forall|x: Seq<ValV>| ks.contains(x) implies dedup_keys(ks).contains(x) by {
            let i = choose|i: int| 0 <= i < ks.len() && ks[i] == x;
            let p = dedup_keys(ks.drop_last());
            if i < ks.len() - 1 {
                assert(ks.drop_last()[i] == x);
                assert(ks.drop_last().contains(x));
                if !p.contains(ks.last()) {
                    assert(dedup_keys(ks) == p.push(ks.last()));
                    let j = choose|j: int| 0 <= j < p.len() && p[j] == x;
                    assert(p.push(ks.last())[j] == x);
                }
            } else {
                if p.contains(ks.last()) {
                } else {
                    assert(dedup_keys(ks) == p.push(ks.last()));
                    assert(p.push(ks.last())[p.len() as int] == x);
                }
            }
        }
    }
}

proof fn lemma_insert_contains(ks: Seq<Seq<ValV>>, k: Seq<ValV>)
    ensures
        forall|x: Seq<ValV>|
            #![trigger insert_sorted(ks, k).contains(x)]
            #![trigger ks.contains(x)]
            insert_sorted(ks, k).contains(x) <==> (ks.contains(x) || x == k),
        insert_sorted(ks, k).contains(k),
    decreases ks.len(),
{
    if ks.len() == 0 {
        assert forall|x: Seq<ValV>|
            insert_sorted(ks, k).contains(x) <==> (ks.contains(x) || x == k) by {
            if x == k {
                assert(insert_sorted(ks, k)[0] == k);
            }
        }
    } else if key_le(k, ks[0]) {
        assert forall|x: Seq<ValV>|
            insert_sorted(ks, k).contains(x) <==> (ks.contains(x) || x == k) by {
            let s = seq![k] + ks;
            if s.contains(x) {
                let i = choose|i: int| 0 <= i < s.len() && s[i] == x;
                if i == 0 {
                } else {
                    assert(ks[i - 1] == x);
                }
            }
            if ks.contains(x) {
                let i = choose|i: int| 0 <= i < ks.len() && ks[i] == x;
                assert(s[i + 1] == x);
            }
            if x == k {
                assert(s[0] == x);
            }
        }
    } else {
        lemma_insert_contains(ks.skip(1), k);
        assert forall|x: Seq<ValV>|
            insert_sorted(ks, k).contains(x) <==> (ks.contains(x) || x == k) by {
            let rest = insert_sorted(ks.skip(1), k);
            let s = seq![ks[0]] + rest;
            assert(insert_sorted(ks, k) == s);
            if s.contains(x) {
                let i = choose|i: int| 0 <= i < s.len() && s[i] == x;
                if i == 0 {
                    assert(ks[0] == x);
                } else {
                    assert(rest[i - 1] == x);
                    assert(rest.contains(x));
                    if ks.skip(1).contains(x) {
                        let j = choose|j: int| 0 <= j < ks.skip(1).len() && ks.skip(1)[j] == x;
                        assert(ks[j + 1] == x);
                    }
                }
            }
            if ks.contains(x) {
                let i = choose|i: int| 0 <= i < ks.len() && ks[i] == x;
                if i == 0 {
                    assert(s[0] == x);
                } else {
                    assert(ks.skip(1)[i - 1] == x);
                    assert(ks.skip(1).contains(x));
                    assert(rest.contains(x));
                    let j = choose|j: int| 0 <= j < rest.len() && rest[j] == x;
                    assert(s[j + 1] == x);
                }
            }
            if x == k {
                assert(rest.contains(x)) by {
                    assert(ks.skip(1).contains(x) || x == k);
                }
                let j = choose|j: int| 0 <= j < rest.len() && rest[j] == x;
                assert(s[j + 1] == x);
            }
        }
    }
    assert(insert_sorted(ks, k).contains(k)) by {
        if ks.len() == 0 || key_le(k, ks[0]) {
            assert(insert_sorted(ks, k)[0] == k);
        } else {
            let rest = insert_sorted(ks.skip(1), k);
            let j = choose|j: int| 0 <= j < rest.len() && rest[j] == k;
            assert((seq![ks[0]] + rest)[j + 1] == k);
        }
    }
}

proof fn lemma_sort_contains(ks: Seq<Seq<ValV>>)
    ensures
        forall|x: Seq<ValV>| sort_keys(ks).contains(x) <==> ks.contains(x),
    decreases ks.len(),
{
    if ks.len() > 0 {
        lemma_sort_contains(ks.drop_last());
        lemma_insert_contains(sort_keys(ks.drop_last()), ks.last());
        assert forall|x: Seq<ValV>| sort_keys(ks).contains(x) <==> ks.contains(x) by {
            if ks.drop_last().contains(x) {
                let i = choose|i: int| 0 <= i < ks.drop_last().len() && ks.drop_last()[i] == x;
                assert(ks[i] == x);
            }
            if ks.contains(x) {
                let i = choose|i: int| 0 <= i < ks.len() && ks[i] == x;
                if i < ks.len() - 1 {
                    assert(ks.drop_last()[i] == x);
                    assert(ks.drop_last().contains(x));
                }
            }
        }
    }
}

/// Every key a grouping produces is the key of some row.
proof fn lemma_group_keys_from_rows(t: Seq<ColV>, dims: Seq<int>)
    ensures
        forall|r: int|
            0 <= r < group_keys(t, dims).len() ==> exists|row: int|
                0 <= row < table_rows(t) && row_key(t, dims, row) == #[trigger] group_keys(
                    t,
                    dims,
                )[r],
{
    lemma_sort_contains(dedup_keys(all_keys(t, dims)));
    lemma_dedup_sub(all_keys(t, dims));
    assert forall|r: int| 0 <= r < group_keys(t, dims).len() implies exists|row: int|
        0 <= row < table_rows(t) && row_key(t, dims, row) == #[trigger] group_keys(t, dims)[r] by {
        let k = group_keys(t, dims)[r];
        assert(group_keys(t, dims).contains(k));
        assert(all_keys(t, dims).contains(k));
        let row = choose|row: int|
            0 <= row < all_keys(t, dims).len() && all_keys(t, dims)[row] == k;
        assert(row_key(t, dims, row) == k);
    }
}

/// Compares two keys of equal length.
fn keys_eq(a: &Vec<Value>, b: &Vec<Value>) -> (r: bool)
    requires
        a@.len() == b@.len(),
    ensures
        r == (cellseq(a@) == cellseq(b@)),
{
    let mut i: usize = 0;
    while i < a.len()
        invariant
            0 <= i <= a@.len(),
            a@.len() == b@.len(),
            forall|j: int| 0 <= j < i ==> a@[j]@ == b@[j]@,
        decreases a@.len() - i,
    {
        if !val_eq(&a[i], &b[i]) {
            proof {
                assert(cellseq(a@)[i as int] != cellseq(b@)[i as int]);
            }
            return false;
        }
        i = i + 1;
    }
    proof {
        assert(cellseq(a@) =~= cellseq(b@));
    }
    true
}

/// A copy of a key.
fn dup_key(k: &Vec<Value>) -> (r: Vec<Value>)
    ensures
        cellseq(r@) == cellseq(k@),
        r@.len() == k@.len(),
{
    let mut out: Vec<Value> = Vec::new();
    let mut i: usize = 0;
    while i < k.len()
        invariant
            0 <= i <= k@.len(),
            out@.len() == i,
            forall|j: int| 0 <= j < i ==> out@[j]@ == k@[j]@,
        decreases k@.len() - i,
    {
        out.push(k[i].dup());
        i = i + 1;
    }
    proof {
        assert(cellseq(out@) =~= cellseq(k@));
    }
    out
}

/// The grouping key of row `r`, extracted.
fn extract_key(t: &Table, dims: &Vec<usize>, r: usize) -> (k: Vec<Value>)
    requires
        wf_table(t@),
        forall|j: int| 0 <= j < dims@.len() ==> #[trigger] dims@[j] < t@.len(),
        r < table_rows(t@),
    ensures
        k@.len() == dims@.len(),
        cellseq(k@) == row_key(t@, Seq::new(dims@.len(), |j: int| dims@[j] as int), r as int),
{
    let mut out: Vec<Value> = Vec::new();
    let mut j: usize = 0;
    while j < dims.len()
        invariant
            0 <= j <= dims@.len(),
            wf_table(t@),
            r < table_rows(t@),
            forall|x: int| 0 <= x < dims@.len() ==> #[trigger] dims@[x] < t@.len(),
            out@.len() == j,
            forall|x: int| 0 <= x < j ==> (#[trigger] out@[x])@ == t@[dims@[x] as int].cells[r as int],
        decreases dims@.len() - j,
    {
        let ci = dims[j];
        proof {
            assert(wf_col(t@[ci as int]) && t@[ci as int].cells.len() == table_rows(t@));
        }
        out.push(t.cols[ci].cells[r].dup());
        j = j + 1;
    }
    proof {
        assert(cellseq(out@) =~= row_key(
            t@,
            Seq::new(dims@.len(), |j: int| dims@[j] as int),
            r as int,
        ));
    }
    out
}

pub open spec fn idxsv(s: Seq<usize>) -> Seq<int> {
    Seq::new(s.len(), |i: int| s[i] as int)
}

proof fn lemma_sum_bound(cells: Seq<ValV>, idxs: Seq<int>, b: int)
    requires
        b >= 0,
        forall|j: int| 0 <= j < idxs.len() ==> 0 <= #[trigger] idxs[j] < cells.len(),
        forall|i: int| 0 <= i < cells.len() ==> -b <= cell_num(#[trigger] cells[i]) <= b,
    ensures
        -b * idxs.len() <= sum_cells(cells, idxs) <= b * idxs.len(),
    decreases idxs.len(),
{
    if idxs.len() > 0 {
        assert(forall|j: int|
            0 <= j < idxs.drop_last().len() ==> 0 <= #[trigger] idxs.drop_last()[j]
                < cells.len());
        lemma_sum_bound(cells, idxs.drop_last(), b);
        assert(-b * (idxs.len() - 1) + (-b) == -b * idxs.len()) by (nonlinear_arith);
        assert(b * (idxs.len() - 1) + b == b * idxs.len()) by (nonlinear_arith);
    }
}

/// Where an insertion lands: the first position whose key is not below.
proof fn lemma_insert_sorted_at(ks: Seq<Seq<ValV>>, k: Seq<ValV>, p: int)
    requires
        0 <= p <= ks.len(),
        forall|j: int| 0 <= j < p ==> !key_le(k, #[trigger] ks[j]),
        p == ks.len() || key_le(k, ks[p]),
    ensures
        insert_sorted(ks, k) == ks.take(p) + seq![k] + ks.skip(p),
    decreases ks.len(),
{
    if ks.len() == 0 {
        assert(insert_sorted(ks, k) =~= ks.take(p) + seq![k] + ks.skip(p));
    } else if key_le(k, ks[0]) {
        assert(p == 0);
        assert(seq![k] + ks =~= ks.take(0) + seq![k] + ks.skip(0));
    } else {
        assert(p > 0);
        assert(forall|j: int| 0 <= j < p - 1 ==> !key_le(k, #[trigger] ks.skip(1)[j]));
        assert(p - 1 == ks.skip(1).len() || key_le(k, ks.skip(1)[p - 1]));
        lemma_insert_sorted_at(ks.skip(1), k, p - 1);
        assert(seq![ks[0]] + (ks.skip(1).take(p - 1) + seq![k] + ks.skip(1).skip(p - 1)) =~= ks.take(
            p,
        ) + seq![k] + ks.skip(p));
    }
}

fn cell_num_x(v: &Value) -> (r: i128)
    requires
        cell_bounded(v@),
    ensures
        r == cell_num(v@),
        -(UNITS_BOUND as int) <= r <= UNITS_BOUND as int,
{
    match v {
        Value::Int(n) => *n,
        Value::Float(u) => *u,
        _ => 0,
    }
}

/// One aggregated value over the selected rows of a column.
fn agg_exec(mode: MetricMode, col: &Column, idxs: &Vec<usize>) -> (r: Value)
    requires
        wf_col(col@),
        bounded_col(col@),
        metric_ok(col@.kind, mode),
        forall|j: int| 0 <= j < idxs@.len() ==> #[trigger] idxs@[j] < col@.cells.len(),
    ensures
        r@ == agg_val(mode, col@.kind, col@.cells, idxsv(idxs@)),
        cell_ok(metric_kind(col@.kind, mode), r@),
{
    let ghost cells = col@.cells;
    let ghost iv = idxsv(idxs@);
    proof {
        assert(forall|j: int| 0 <= j < iv.len() ==> 0 <= #[trigger] iv[j] < cells.len());
        assert forall|i: int| 0 <= i < cells.len() implies -(UNITS_BOUND as int) <= cell_num(
            #[trigger] cells[i],
        ) <= UNITS_BOUND as int by {
            assert(cell_ok(col@.kind, cells[i]) && cell_bounded(cells[i]));
        }
    }
    match mode {
        MetricMode::Sum | MetricMode::Avg => {
            let ghost bnd: int = if col@.kind == DataKind::Int {
                0x80000000
            } else {
                UNITS_BOUND as int
            };
            proof {
                assert forall|i: int| 0 <= i < cells.len() implies -bnd <= cell_num(
                    #[trigger] cells[i],
                ) <= bnd by {
                    assert(cell_ok(col@.kind, cells[i]) && cell_bounded(cells[i]));
                }
            }
            let n = idxs.len();
            let mut acc: i128 = 0;
            let mut cnt: usize = 0;
            let mut k: usize = 0;
            while k < n
                invariant
                    0 <= k <= n == idxs@.len(),
                    iv == idxsv(idxs@),
                    cells == col@.cells,
                    wf_col(col@),
                    bounded_col(col@),
                    bnd == (if col@.kind == DataKind::Int {
                        0x80000000int
                    } else {
                        UNITS_BOUND as int
                    }),
                    forall|j: int| 0 <= j < idxs@.len() ==> #[trigger] idxs@[j] < col@.cells.len(),
                    forall|i: int|
                        0 <= i < cells.len() ==> -bnd <= cell_num(#[trigger] cells[i]) <= bnd,
                    acc == sum_cells(cells, iv.take(k as int)),
                    cnt == count_nn(cells, iv.take(k as int)),
                    cnt <= k,
                    -bnd * k <= acc <= bnd * k,
                decreases idxs@.len() - k,
            {
                let ci = idxs[k];
                proof {
                    assert(col.cells@[ci as int]@ == cells[ci as int]);
                    assert(cell_bounded(cells[ci as int]));
                }
                let num = cell_num_x(&col.cells[ci]);
                let nn = if col.cells[ci].is_null() {
                    0
                } else {
                    1
                };
                proof {
                    assert(iv.take(k + 1).drop_last() =~= iv.take(k as int));
                    assert(iv.take(k + 1).last() == iv[k as int]);
                    assert(-bnd <= num <= bnd);
                    assert(-bnd * (k + 1) <= acc + num <= bnd * (k + 1)) by (nonlinear_arith)
                        requires
                            -bnd * (k as int) <= acc <= bnd * (k as int),
                            -bnd <= num <= bnd,
                    ;
                    assert(bnd * ((k + 1) as int) <= 2147483648000000 * 0x20000000000000000)
                        by (nonlinear_arith)
                        requires
                            k + 1 <= 0x10000000000000000,
                            0 <= bnd <= 2147483648000000,
                    ;
                }
                acc = acc + num;
                cnt = cnt + nn;
                k = k + 1;
            }
            proof {
                assert(iv.take(idxs@.len() as int) =~= iv);
            }
            match mode {
                MetricMode::Sum => {
                    match col.kind {
                        DataKind::Float => Value::Float(acc),
                        _ => Value::Int(acc),
                    }
                },
                _ => {
                    if cnt == 0 {
                        Value::Null
                    } else {
                        let scale: i128 = match col.kind {
                            DataKind::Int => 1000000,
                            _ => 1,
                        };
                        proof {
                            assert(-bnd * 0x10000000000000000 <= acc <= bnd * 0x10000000000000000)
                                by (nonlinear_arith)
                                requires
                                    -bnd * (idxs@.len() as int) <= acc <= bnd * (
                                    idxs@.len() as int),
                                    0 <= idxs@.len() <= 0x10000000000000000,
                                    bnd >= 0,
                            ;
                            assert(-0x40000000000000000000000000000000 < acc * scale
                                < 0x40000000000000000000000000000000) by (nonlinear_arith)
                                requires
                                    -bnd * 0x10000000000000000 <= acc <= bnd * 0x10000000000000000,
                                    (bnd == 0x80000000 && scale == 1000000) || (bnd
                                        == 2147483648000000 && scale == 1),
                            ;
                        }
                        Value::Float(crate::etl::trunc_div_x(acc * scale, cnt as i128))
                    }
                },
            }
        },
        MetricMode::Count => {
            let mut cnt: usize = 0;
            let mut k: usize = 0;
            while k < idxs.len()
                invariant
                    0 <= k <= idxs@.len(),
                    iv == idxsv(idxs@),
                    cells == col@.cells,
                    wf_col(col@),
                    forall|j: int| 0 <= j < idxs@.len() ==> #[trigger] idxs@[j] < col@.cells.len(),
                    cnt == count_nn(cells, iv.take(k as int)),
                    cnt <= k,
                decreases idxs@.len() - k,
            {
                let ci = idxs[k];
                proof {
                    assert(iv.take(k + 1).drop_last() =~= iv.take(k as int));
                    assert(col.cells@[ci as int]@ == cells[ci as int]);
                }
                if !col.cells[ci].is_null() {
                    cnt = cnt + 1;
                }
                k = k + 1;
            }
            proof {
                assert(iv.take(idxs@.len() as int) =~= iv);
            }
            Value::Int(cnt as i128)
        },
        MetricMode::Max | MetricMode::Min => {
            let want_min = match mode {
                MetricMode::Min => true,
                _ => false,
            };
            let mut best: Option<Value> = None;
            let mut k: usize = 0;
            while k < idxs.len()
                invariant
                    0 <= k <= idxs@.len(),
                    iv == idxsv(idxs@),
                    cells == col@.cells,
                    wf_col(col@),
                    forall|j: int| 0 <= j < idxs@.len() ==> #[trigger] idxs@[j] < col@.cells.len(),
                    want_min == (mode == MetricMode::Min),
                    match best {
                        Some(v) => best_cell(cells, iv.take(k as int), want_min) == Some(v@)
                            && cell_ok(col@.kind, v@),
                        None => best_cell(cells, iv.take(k as int), want_min) is None,
                    },
                decreases idxs@.len() - k,
            {
                let ci = idxs[k];
                proof {
                    assert(iv.take(k + 1).drop_last() =~= iv.take(k as int));
                    assert(col.cells@[ci as int]@ == cells[ci as int]);
                    assert(cell_ok(col@.kind, cells[ci as int]));
                }
                let c = &col.cells[ci];
                if !c.is_null() {
                    best = match best {
                        None => Some(c.dup()),
                        Some(q) => {
                            let takec = if want_min {
                                crate::order::val_le_x(c, &q)
                            } else {
                                crate::order::val_le_x(&q, c)
                            };
                            if takec {
                                Some(c.dup())
                            } else {
                                Some(q)
                            }
                        },
                    };
                }
                k = k + 1;
            }
            proof {
                assert(iv.take(idxs@.len() as int) =~= iv);
            }
            match best {
                None => Value::Null,
                Some(v) => v,
            }
        },
        MetricMode::Rate => Value::Null,
    }
}

/// Whether any collected key equals `k`.
fn contains_key(ks: &Vec<Vec<Value>>, k: &Vec<Value>) -> (r: bool)
    requires
        forall|i: int| 0 <= i < ks@.len() ==> (#[trigger] ks@[i])@.len() == k@.len(),
    ensures
        r == keysv(ks@).contains(cellseq(k@)),
{
    let mut i: usize = 0;
    while i < ks.len()
        invariant
            0 <= i <= ks@.len(),
            forall|j: int| 0 <= j < ks@.len() ==> (#[trigger] ks@[j])@.len() == k@.len(),
            forall|j: int| 0 <= j < i ==> keysv(ks@)[j] != cellseq(k@),
        decreases ks@.len() - i,
    {
        if keys_eq(&ks[i], k) {
            proof {
                assert(keysv(ks@)[i as int] == cellseq(k@));
            }
            return true;
        }
        i = i + 1;
    }
    false
}

/// Every row a matching set names is a real row.
proof fn lemma_rows_matching_bounds(t: Seq<ColV>, dims: Seq<int>, key: Seq<ValV>, n: int)
    requires
        n >= 0,
    ensures
        forall|j: int|
            0 <= j < rows_matching(t, dims, key, n).len() ==> 0 <= #[trigger] rows_matching(
                t,
                dims,
                key,
                n,
            )[j] < n,
    decreases n,
{
    if n > 0 {
        lemma_rows_matching_bounds(t, dims, key, n - 1);
        let pre = rows_matching(t, dims, key, n - 1);
        let cur = rows_matching(t, dims, key, n);
        assert forall|j: int| 0 <= j < cur.len() implies 0 <= #[trigger] cur[j] < n by {
            if j < pre.len() {
                assert(cur[j] == pre[j]);
            } else {
                assert(cur[j] == n - 1);
            }
        }
    }
}

/// An aggregate value fits the aggregated column's kind.
proof fn lemma_agg_val_ok(mode: MetricMode, k: DataKind, cells: Seq<ValV>, idxs: Seq<int>)
    requires
        metric_ok(k, mode),
        forall|j: int| 0 <= j < idxs.len() ==> 0 <= #[trigger] idxs[j] < cells.len(),
        forall|i: int| 0 <= i < cells.len() ==> cell_ok(k, #[trigger] cells[i]),
    ensures
        cell_ok(metric_kind(k, mode), agg_val(mode, k, cells, idxs)),
    decreases idxs.len(),
{
    match mode {
        MetricMode::Max | MetricMode::Min => {
            if idxs.len() > 0 {
                lemma_agg_val_ok(mode, k, cells, idxs.drop_last());
            }
        },
        _ => {},
    }
}

fn metric_ok_x(k: DataKind, mode: MetricMode) -> (r: bool)
    ensures
        r == metric_ok(k, mode),
{
    match mode {
        MetricMode::Sum | MetricMode::Avg => match k {
            DataKind::Int | DataKind::Float => true,
            _ => false,
        },
        MetricMode::Rate => false,
        _ => true,
    }
}

/// Whether all output column names of an aggregate are pairwise distinct.
fn names_distinct(names: &Vec<Vec<char>>, ms: &Vec<Metric>) -> (r: bool)
    ensures
        r == (forall|x: int, y: int|
            0 <= x < y < names@.len() + ms@.len() ==> agg_name(names@, ms@, x) != agg_name(
                names@,
                ms@,
                y,
            )),
{
    let nl = names.len();
    let ml = ms.len();
    let mut a: usize = 0;
    while a < nl
        invariant
            0 <= a <= nl == names@.len(),
            ml == ms@.len(),
            forall|x: int, y: int| 0 <= x < a && x < y < nl ==> (#[trigger] names@[x])@ != (
            #[trigger] names@[y])@,
        decreases nl - a,
    {
        let mut b: usize = a + 1;
        while b < nl
            invariant
                0 <= a < b <= nl == names@.len(),
                forall|y: int| a < y < b ==> (#[trigger] names@[y])@ != names@[a as int]@,
            decreases nl - b,
        {
            if chars_eq(&names[a], &names[b]) {
                proof {
                    assert(agg_name(names@, ms@, a as int) == agg_name(names@, ms@, b as int));
                }
                return false;
            }
            b = b + 1;
        }
        a = a + 1;
    }
    let mut a: usize = 0;
    while a < nl
        invariant
            0 <= a <= nl == names@.len(),
            ml == ms@.len(),
            forall|x: int, y: int|
                0 <= x < a && 0 <= y < ml ==> (#[trigger] names@[x])@ != (#[trigger] ms@[y].index)@,
        decreases nl - a,
    {
        let mut b: usize = 0;
        while b < ml
            invariant
                0 <= a < nl == names@.len(),
                0 <= b <= ml == ms@.len(),
                forall|y: int| 0 <= y < b ==> (#[trigger] ms@[y].index)@ != names@[a as int]@,
            decreases ml - b,
        {
            if chars_eq(&names[a], &ms[b].index) {
                proof {
                    assert(agg_name(names@, ms@, a as int) == agg_name(
                        names@,
                        ms@,
                        names@.len() + b,
                    ));
                }
                return false;
            }
            b = b + 1;
        }
        a = a + 1;
    }
    let mut a: usize = 0;
    while a < ml
        invariant
            0 <= a <= ml == ms@.len(),
            nl == names@.len(),
            forall|x: int, y: int| 0 <= x < a && x < y < ml ==> (#[trigger] ms@[x].index)@ != (
            #[trigger] ms@[y].index)@,
        decreases ml - a,
    {
        let mut b: usize = a + 1;
        while b < ml
            invariant
                0 <= a < b <= ml == ms@.len(),
                nl == names@.len(),
                forall|y: int| a < y < b ==> (#[trigger] ms@[y].index)@ != ms@[a as int].index@,
            decreases ml - b,
        {
            if chars_eq(&ms[a].index, &ms[b].index) {
                proof {
                    assert(agg_name(names@, ms@, names@.len() + a) == agg_name(
                        names@,
                        ms@,
                        names@.len() + b,
                    ));
                }
                return false;
            }
            b = b + 1;
        }
        a = a + 1;
    }
    proof {
        assert forall|x: int, y: int|
            0 <= x < y < names@.len() + ms@.len() implies agg_name(names@, ms@, x) != agg_name(
            names@,
            ms@,
            y,
        ) by {
            if y < names@.len() {
                assert(names@[x]@ != names@[y]@);
            } else if x < names@.len() {
                assert(names@[x]@ != ms@[y - names@.len()].index@);
            } else {
                assert(ms@[x - names@.len()].index@ != ms@[y - names@.len()].index@);
            }
        }
    }
    true
}

/// Groups the filtered table by the named dimension columns and applies
/// every requested metric, sorting the groups ascending by their key.
pub fn aggregate(t: &Table, names: &Vec<Vec<char>>, ms: &Vec<Metric>) -> (res: Result<
    Table,
    EngineError,
>)
    requires
        wf_table(t@),
        bounded_table(t@),
        names@.len() > 0,
    ensures
        match res {
            Ok(out) => agg_err(t@, names@, ms@) is None && is_aggregate_of(
                out@,
                t@,
                dims_resolved(t@, names@),
                ms@,
            ) && wf_table(out@),
            Err(e) => agg_err(t@, names@, ms@) == Some(e@),
        },
{
    let mut j: usize = 0;
    while j < ms.len()
        invariant
            0 <= j <= ms@.len(),
            forall|x: int| 0 <= x < j ==> (#[trigger] ms@[x].mode) != MetricMode::Rate,
        decreases ms@.len() - j,
    {
        match ms[j].mode {
            MetricMode::Rate => {
                return Err(EngineError::NotImplemented);
            },
            _ => {},
        }
        j = j + 1;
    }
    let mut dims: Vec<usize> = Vec::new();
    let mut j: usize = 0;
    while j < names.len()
        invariant
            0 <= j <= names@.len(),
            dims@.len() == j,
            forall|x: int| 0 <= x < ms@.len() ==> (#[trigger] ms@[x].mode) != MetricMode::Rate,
            forall|x: int|
                0 <= x < j ==> find_col(t@, (#[trigger] names@[x])@) == Some(dims@[x] as int)
                    && dims@[x] < t@.len(),
        decreases names@.len() - j,
    {
        match t.col_index(&names[j]) {
            None => {
                return Err(EngineError::NotFound);
            },
            Some(ci) => {
                dims.push(ci);
            },
        }
        j = j + 1;
    }
    let mut mcols: Vec<usize> = Vec::new();
    let mut j: usize = 0;
    while j < ms.len()
        invariant
            0 <= j <= ms@.len(),
            mcols@.len() == j,
            wf_table(t@),
            forall|x: int| 0 <= x < ms@.len() ==> (#[trigger] ms@[x].mode) != MetricMode::Rate,
            forall|x: int|
                0 <= x < names@.len() ==> find_col(t@, (#[trigger] names@[x])@) is Some,
            forall|x: int|
                0 <= x < j ==> find_col(t@, (#[trigger] ms@[x].index)@) == Some(
                    mcols@[x] as int,
                ) && mcols@[x] < t@.len(),
        decreases ms@.len() - j,
    {
        match t.col_index(&ms[j].index) {
            None => {
                return Err(EngineError::NotFound);
            },
            Some(ci) => {
                mcols.push(ci);
            },
        }
        j = j + 1;
    }
    let mut j: usize = 0;
    while j < ms.len()
        invariant
            0 <= j <= ms@.len(),
            mcols@.len() == ms@.len(),
            wf_table(t@),
            t@.len() == t.cols@.len(),
            forall|x: int| 0 <= x < ms@.len() ==> (#[trigger] ms@[x].mode) != MetricMode::Rate,
            forall|x: int|
                0 <= x < names@.len() ==> find_col(t@, (#[trigger] names@[x])@) is Some,
            forall|x: int|
                0 <= x < ms@.len() ==> find_col(t@, (#[trigger] ms@[x].index)@) == Some(
                    mcols@[x] as int,
                ) && mcols@[x] < t@.len(),
            forall|x: int|
                0 <= x < j ==> metric_ok(
                    t@[find_col(t@, (#[trigger] ms@[x].index)@)->Some_0].kind,
                    ms@[x].mode,
                ),
        decreases ms@.len() - j,
    {
        let ci = mcols[j];
        proof {
            assert(find_col(t@, ms@[j as int].index@) == Some(ci as int));
            assert(t@[ci as int] == t.cols@[ci as int]@);
        }
        if !metric_ok_x(t.cols[ci].kind, ms[j].mode) {
            return Err(EngineError::UnsupportedMetric);
        }
        j = j + 1;
    }
    if !names_distinct(names, ms) {
        return Err(EngineError::BadInput);
    }
    let ghost dimsv = Seq::new(dims@.len(), |j: int| dims@[j] as int);
    proof {
        assert(dimsv =~= dims_resolved(t@, names@));
        assert forall|x: int| 0 <= x < ms@.len() implies metric_ok(
            t@[mcols@[x] as int].kind,
            (#[trigger] ms@[x]).mode,
        ) by {
            assert(find_col(t@, ms@[x].index@) == Some(mcols@[x] as int));
            assert(metric_ok(t@[find_col(t@, ms@[x].index@)->Some_0].kind, ms@[x].mode));
        }
    }
    let out = group_and_apply(t, &dims, names, &mcols, ms);
    proof {
        assert(agg_err(t@, names@, ms@) is None);
    }
    Ok(out)
}

/// The grouping core: distinct keys, sorted, with every metric applied.
fn group_and_apply(
    t: &Table,
    dims: &Vec<usize>,
    names: &Vec<Vec<char>>,
    mcols: &Vec<usize>,
    ms: &Vec<Metric>,
) -> (out: Table)
    requires
        wf_table(t@),
        bounded_table(t@),
        names@.len() > 0,
        dims@.len() == names@.len(),
        mcols@.len() == ms@.len(),
        forall|x: int|
            0 <= x < names@.len() ==> find_col(t@, (#[trigger] names@[x])@) == Some(
                dims@[x] as int,
            ) && dims@[x] < t@.len(),
        forall|x: int|
            0 <= x < ms@.len() ==> find_col(t@, (#[trigger] ms@[x].index)@) == Some(
                mcols@[x] as int,
            ) && mcols@[x] < t@.len(),
        forall|x: int|
            0 <= x < ms@.len() ==> metric_ok(t@[mcols@[x] as int].kind, (#[trigger] ms@[x]).mode),
        forall|x: int, y: int|
            0 <= x < y < names@.len() + ms@.len() ==> agg_name(names@, ms@, x) != agg_name(
                names@,
                ms@,
                y,
            ),
    ensures
        is_aggregate_of(out@, t@, Seq::new(dims@.len(), |j: int| dims@[j] as int), ms@),
        wf_table(out@),
{
    let ghost dimsv = Seq::new(dims@.len(), |j: int| dims@[j] as int);
    proof {
        assert forall|x: int| 0 <= x < dims@.len() implies #[trigger] dims@[x] < t@.len() by {
            assert(find_col(t@, names@[x]@) == Some(dims@[x] as int));
        }
    }
    let rows = t.row_count();
    let mut distinct: Vec<Vec<Value>> = Vec::new();
    let mut r: usize = 0;
    proof {
        assert(all_keys(t@, dimsv).take(0) =~= Seq::<Seq<ValV>>::empty());
        assert(keysv(distinct@) =~= Seq::<Seq<ValV>>::empty());
    }
    while r < rows
        invariant
            0 <= r <= rows,
            rows == table_rows(t@),
            wf_table(t@),
            dimsv == Seq::new(dims@.len(), |j: int| dims@[j] as int),
            forall|x: int| 0 <= x < dims@.len() ==> #[trigger] dims@[x] < t@.len(),
            keysv(distinct@) == dedup_keys(all_keys(t@, dimsv).take(r as int)),
            forall|x: int| 0 <= x < distinct@.len() ==> (#[trigger] distinct@[x])@.len()
                == dims@.len(),
        decreases rows - r,
    {
        let key = extract_key(t, dims, r);
        proof {
            assert(all_keys(t@, dimsv).take(r + 1).drop_last() =~= all_keys(t@, dimsv).take(
                r as int,
            ));
            assert(all_keys(t@, dimsv).take(r + 1).last() == row_key(t@, dimsv, r as int));
        }
        if !contains_key(&distinct, &key) {
            distinct.push(key);
            proof {
                assert(keysv(distinct@) =~= keysv(distinct@.drop_last()).push(
                    cellseq(distinct@.last()@),
                ));
            }
        }
        r = r + 1;
    }
    proof {
        assert(all_keys(t@, dimsv).take(table_rows(t@)) =~= all_keys(t@, dimsv));
    }
    let ghost dkeys = dedup_keys(all_keys(t@, dimsv));
    let mut sorted: Vec<Vec<Value>> = Vec::new();
    let mut g: usize = 0;
    proof {
        assert(dkeys.take(0) =~= Seq::<Seq<ValV>>::empty());
        assert(keysv(sorted@) =~= Seq::<Seq<ValV>>::empty());
    }
    while g < distinct.len()
        invariant
            0 <= g <= distinct@.len(),
            keysv(distinct@) == dkeys,
            forall|x: int| 0 <= x < distinct@.len() ==> (#[trigger] distinct@[x])@.len()
                == dims@.len(),
            forall|x: int| 0 <= x < sorted@.len() ==> (#[trigger] sorted@[x])@.len()
                == dims@.len(),
            keysv(sorted@) == sort_keys(dkeys.take(g as int)),
        decreases distinct@.len() - g,
    {
        let key = dup_key(&distinct[g]);
        let ghost kv = cellseq(key@);
        let mut pos: usize = 0;
        while pos < sorted.len() && !key_le_x(&key, &sorted[pos])
            invariant
                0 <= pos <= sorted@.len(),
                key@.len() == dims@.len(),
                kv == cellseq(key@),
                forall|x: int| 0 <= x < sorted@.len() ==> (#[trigger] sorted@[x])@.len()
                    == dims@.len(),
                forall|x: int| 0 <= x < pos ==> !key_le(kv, keysv(sorted@)[x]),
            decreases sorted@.len() - pos,
        {
            proof {
                assert(keysv(sorted@)[pos as int] == cellseq(sorted@[pos as int]@));
            }
            pos = pos + 1;
        }
        proof {
            if pos < sorted@.len() {
                assert(key_le(kv, keysv(sorted@)[pos as int]));
            }
            lemma_insert_sorted_at(keysv(sorted@), kv, pos as int);
        }
        let ghost oldsv = keysv(sorted@);
        sorted.insert(pos, key);
        g = g + 1;
        proof {
            assert(keysv(sorted@) =~= oldsv.take(pos as int) + seq![kv] + oldsv.skip(pos as int));
            assert(dkeys.take(g as int).drop_last() =~= dkeys.take(g - 1));
            assert(dkeys.take(g as int).last() == dkeys[g - 1]);
            assert(dkeys[g - 1] == kv);
            assert(keysv(sorted@) == sort_keys(dkeys.take(g as int)));
        }
    }
    proof {
        assert(dkeys.take(distinct@.len() as int) =~= dkeys);
        assert(keysv(sorted@) == group_keys(t@, dimsv));
    }
    let ghost skeys = group_keys(t@, dimsv);
    let nkeys = sorted.len();
    let mut cols: Vec<Column> = Vec::new();
    let mut j: usize = 0;
    while j < dims.len()
        invariant
            0 <= j <= dims@.len(),
            wf_table(t@),
            dimsv == Seq::new(dims@.len(), |j: int| dims@[j] as int),
            forall|x: int| 0 <= x < dims@.len() ==> #[trigger] dims@[x] < t@.len(),
            nkeys == sorted@.len(),
            skeys == keysv(sorted@),
            forall|x: int| 0 <= x < sorted@.len() ==> (#[trigger] sorted@[x])@.len()
                == dims@.len(),
            cols@.len() == j,
            forall|x: int|
                0 <= x < j ==> (#[trigger] cols@[x]@).name == t@[dimsv[x]].name && cols@[x]@.kind
                    == t@[dimsv[x]].kind && cols@[x]@.cells == Seq::new(
                    skeys.len(),
                    |r: int| skeys[r][x],
                ),
        decreases dims@.len() - j,
    {
        let ci = dims[j];
        let mut cells: Vec<Value> = Vec::new();
        let mut r: usize = 0;
        while r < nkeys
            invariant
                0 <= r <= nkeys == sorted@.len(),
                0 <= j < dims@.len(),
                skeys == keysv(sorted@),
                forall|x: int| 0 <= x < sorted@.len() ==> (#[trigger] sorted@[x])@.len()
                    == dims@.len(),
                cells@.len() == r,
                forall|x: int| 0 <= x < r ==> (#[trigger] cells@[x])@ == skeys[x][j as int],
            decreases nkeys - r,
        {
            proof {
                assert(skeys[r as int] == cellseq(sorted@[r as int]@));
            }
            cells.push(sorted[r][j].dup());
            r = r + 1;
        }
        cols.push(
            Column { name: dup_chars(&t.cols[ci].name), kind: t.cols[ci].kind, cells },
        );
        j = j + 1;
        proof {
            assert(cols@[j - 1]@.cells =~= Seq::new(skeys.len(), |r: int| skeys[r][j - 1]));
        }
    }
    let mut j: usize = 0;
    while j < ms.len()
        invariant
            0 <= j <= ms@.len(),
            wf_table(t@),
            bounded_table(t@),
            dimsv == Seq::new(dims@.len(), |j: int| dims@[j] as int),
            mcols@.len() == ms@.len(),
            forall|x: int| 0 <= x < dims@.len() ==> #[trigger] dims@[x] < t@.len(),
            forall|x: int|
                0 <= x < ms@.len() ==> find_col(t@, (#[trigger] ms@[x].index)@) == Some(
                    mcols@[x] as int,
                ) && mcols@[x] < t@.len(),
            forall|x: int|
                0 <= x < ms@.len() ==> metric_ok(
                    t@[mcols@[x] as int].kind,
                    (#[trigger] ms@[x]).mode,
                ),
            nkeys == sorted@.len(),
            skeys == keysv(sorted@),
            forall|x: int| 0 <= x < sorted@.len() ==> (#[trigger] sorted@[x])@.len()
                == dims@.len(),
            cols@.len() == dims@.len() + j,
            forall|x: int|
                0 <= x < dims@.len() ==> (#[trigger] cols@[x]@).name == t@[dimsv[x]].name
                    && cols@[x]@.kind == t@[dimsv[x]].kind && cols@[x]@.cells == Seq::new(
                    skeys.len(),
                    |r: int| skeys[r][x],
                ),
            forall|x: int|
                0 <= x < j ==> (#[trigger] cols@[dims@.len() + x]@).name == ms@[x].index@ && cols@[
                    dims@.len() + x
                ]@.kind == metric_kind(t@[mcols@[x] as int].kind, ms@[x].mode) && cols@[dims@.len()
                    + x]@.cells == Seq::new(
                    skeys.len(),
                    |r: int|
                        agg_val(
                            ms@[x].mode,
                            t@[mcols@[x] as int].kind,
                            t@[mcols@[x] as int].cells,
                            rows_matching(t@, dimsv, skeys[r], table_rows(t@)),
                        ),
                ),
        decreases ms@.len() - j,
    {
        proof {
            assert(find_col(t@, ms@[j as int].index@) == Some(mcols@[j as int] as int));
        }
        let ci = mcols[j];
        let col = &t.cols[ci];
        proof {
            assert(col@ == t@[ci as int]);
            assert(wf_col(t@[ci as int]) && t@[ci as int].cells.len() == table_rows(t@));
            assert(bounded_col(t@[ci as int]));
        }
        let mut cells: Vec<Value> = Vec::new();
        let mut r: usize = 0;
        while r < nkeys
            invariant
                0 <= r <= nkeys == sorted@.len(),
                0 <= j < ms@.len(),
                wf_table(t@),
                bounded_table(t@),
                ci == mcols@[j as int],
                ci < t@.len(),
                col == &t.cols@[ci as int],
                t@.len() == t.cols@.len(),
                dimsv == Seq::new(dims@.len(), |j: int| dims@[j] as int),
                forall|x: int| 0 <= x < dims@.len() ==> #[trigger] dims@[x] < t@.len(),
                metric_ok(t@[ci as int].kind, ms@[j as int].mode),
                skeys == keysv(sorted@),
                forall|x: int| 0 <= x < sorted@.len() ==> (#[trigger] sorted@[x])@.len()
                    == dims@.len(),
                cells@.len() == r,
                forall|x: int|
                    0 <= x < r ==> (#[trigger] cells@[x])@ == agg_val(
                        ms@[j as int].mode,
                        t@[ci as int].kind,
                        t@[ci as int].cells,
                        rows_matching(t@, dimsv, skeys[x], table_rows(t@)),
                    ) && cell_ok(
                        metric_kind(t@[ci as int].kind, ms@[j as int].mode),
                        cells@[x]@,
                    ),
            decreases nkeys - r,
        {
            let rows2 = t.row_count();
            let mut matching: Vec<usize> = Vec::new();
            let mut row: usize = 0;
            proof {
                assert(idxsv(matching@) =~= Seq::<int>::empty());
            }
            while row < rows2
                invariant
                    0 <= row <= rows2,
                    rows2 == table_rows(t@),
                    wf_table(t@),
                    0 <= r < sorted@.len(),
                    dimsv == Seq::new(dims@.len(), |j: int| dims@[j] as int),
                    forall|x: int| 0 <= x < dims@.len() ==> #[trigger] dims@[x] < t@.len(),
                    skeys == keysv(sorted@),
                    sorted@[r as int]@.len() == dims@.len(),
                    idxsv(matching@) == rows_matching(t@, dimsv, skeys[r as int], row as int),
                    forall|x: int| 0 <= x < matching@.len() ==> #[trigger] matching@[x]
                        < table_rows(t@),
                decreases rows2 - row,
            {
                let key2 = extract_key(t, dims, row);
                proof {
                    assert(skeys[r as int] == cellseq(sorted@[r as int]@));
                }
                let same = keys_eq(&key2, &sorted[r]);
                if same {
                    matching.push(row);
                }
                row = row + 1;
                proof {
                    assert(idxsv(matching@) =~= rows_matching(
                        t@,
                        dimsv,
                        skeys[r as int],
                        row as int,
                    ));
                }
            }
            let v = agg_exec(ms[j].mode, col, &matching);
            cells.push(v);
            r = r + 1;
        }
        cols.push(
            Column {
                name: dup_chars(&ms[j].index),
                kind: metric_kind_x(t.cols[ci].kind, ms[j].mode),
                cells,
            },
        );
        j = j + 1;
        proof {
            assert(cols@[cols@.len() - 1]@.cells =~= Seq::new(
                skeys.len(),
                |r: int|
                    agg_val(
                        ms@[j - 1].mode,
                        t@[mcols@[j - 1] as int].kind,
                        t@[mcols@[j - 1] as int].cells,
                        rows_matching(t@, dimsv, skeys[r], table_rows(t@)),
                    ),
            ));
        }
    }
    let out = Table { cols };
    proof {
        assert(is_aggregate_of(out@, t@, dimsv, ms@));
        lemma_group_keys_from_rows(t@, dimsv);
        assert(out@[0].cells.len() == skeys.len());
        assert(table_rows(out@) == skeys.len());
        assert forall|x: int| 0 <= x < out@.len() implies wf_col(#[trigger] out@[x])
            && out@[x].cells.len() == table_rows(out@) by {
            if x < dims@.len() {
                assert forall|rr: int| 0 <= rr < out@[x].cells.len() implies cell_ok(
                    out@[x].kind,
                    #[trigger] out@[x].cells[rr],
                ) by {
                    assert(skeys[rr] == group_keys(t@, dimsv)[rr]);
                    let row = choose|row: int|
                        0 <= row < table_rows(t@) && row_key(t@, dimsv, row) == skeys[rr];
                    assert(skeys[rr][x] == t@[dimsv[x]].cells[row]);
                    assert(wf_col(t@[dimsv[x]]));
                    assert(cell_ok(t@[dimsv[x]].kind, t@[dimsv[x]].cells[row]));
                }
            } else {
                let mi = x - dims@.len();
                let ci = mcols@[mi] as int;
                assert(find_col(t@, (ms@[mi].index)@) == Some(ci));
                assert(out@[dims@.len() + mi].kind == metric_kind(t@[ci].kind, ms@[mi].mode));
                assert(out@[dims@.len() + mi].cells == Seq::new(
                    skeys.len(),
                    |r: int|
                        agg_val(
                            ms@[mi].mode,
                            t@[ci].kind,
                            t@[ci].cells,
                            rows_matching(t@, dimsv, skeys[r], table_rows(t@)),
                        ),
                ));
                assert forall|rr: int| 0 <= rr < out@[x].cells.len() implies cell_ok(
                    out@[x].kind,
                    #[trigger] out@[x].cells[rr],
                ) by {
                    lemma_rows_matching_bounds(t@, dimsv, skeys[rr], table_rows(t@));
                    assert(wf_col(t@[ci]) && t@[ci].cells.len() == table_rows(t@));
                    lemma_agg_val_ok(
                        ms@[mi].mode,
                        t@[ci].kind,
                        t@[ci].cells,
                        rows_matching(t@, dimsv, skeys[rr], table_rows(t@)),
                    );
                }
            }
        }
        assert forall|x: int, y: int| 0 <= x < y < out@.len() implies out@[x].name
            != out@[y].name by {
            if x < dims@.len() {
                assert(find_col(t@, names@[x]@) == Some(dims@[x] as int));
                lemma_find_col_name(t@, names@[x]@, 0);
            }
            if y < dims@.len() {
                assert(find_col(t@, names@[y]@) == Some(dims@[y] as int));
                lemma_find_col_name(t@, names@[y]@, 0);
            }
            if x >= dims@.len() {
                assert(out@[dims@.len() + (x - dims@.len())].name == ms@[x - dims@.len()].index@);
            }
            if y >= dims@.len() {
                assert(out@[dims@.len() + (y - dims@.len())].name == ms@[y - dims@.len()].index@);
            }
            assert(out@[x].name == agg_name(names@, ms@, x));
            assert(out@[y].name == agg_name(names@, ms@, y));
        }
        assert(wf_table(out@));
    }
    out
}

fn metric_kind_x(k: DataKind, mode: MetricMode) -> (r: DataKind)
    ensures
        r == metric_kind(k, mode),
{
    match mode {
        MetricMode::Sum | MetricMode::Max | MetricMode::Min => k,
        MetricMode::Avg => DataKind::Float,
        _ => DataKind::Int,
    }
}

/// The rows among the first `n` matching both pivot coordinates, in order.
pub open spec fn rows_matching2(
    t: Seq<ColV>,
    ri: int,
    ci: int,
    rv: ValV,
    cv: ValV,
    n: int,
) -> Seq<int>
    decreases n,
{
    if n <= 0 {
        Seq::empty()
    } else {
        rows_matching2(t, ri, ci, rv, cv, n - 1) + (if t[ri].cells[n - 1] == rv && t[ci].cells[n
            - 1] == cv {
            seq![n - 1]
        } else {
            Seq::empty()
        })
    }
}

/// The distinct values of the pivot-column dimension, first seen first,
/// as one-element keys.
pub open spec fn ckeys_of(t: Seq<ColV>, ci: int) -> Seq<Seq<ValV>> {
    dedup_keys(all_keys(t, seq![ci]))
}

/// One pivot cell: the metric aggregated over the rows at that coordinate,
/// missing where no row has it.
pub open spec fn pivot_cell(
    t: Seq<ColV>,
    ri: int,
    ci: int,
    mi: int,
    mode: MetricMode,
    rv: ValV,
    cv: ValV,
) -> ValV {
    let g = rows_matching2(t, ri, ci, rv, cv, table_rows(t));
    if g.len() == 0 {
        ValV::Null
    } else {
        agg_val(mode, t[mi].kind, t[mi].cells, g)
    }
}

/// The generated pivot column names do not collide.
pub open spec fn pivot_names_ok(t: Seq<ColV>, ri: int, ci: int) -> bool {
    let cks = ckeys_of(t, ci);
    (forall|j: int| 0 <= j < cks.len() ==> val_text((#[trigger] cks[j])[0]) != t[ri].name) && (
    forall|i: int, j: int|
        0 <= i < j < cks.len() ==> val_text(cks[i][0]) != val_text(cks[j][0]))
}

/// Whether a pivot of `t` with metric `m` can succeed.
pub open spec fn pivot_ok(t: Seq<ColV>, rname: Seq<char>, cname: Seq<char>, m: Metric) -> bool {
    find_col(t, rname) is Some && find_col(t, cname) is Some && find_col(t, m.index@) is Some
        && metric_ok(t[find_col(t, m.index@)->Some_0].kind, m.mode) && pivot_names_ok(
        t,
        find_col(t, rname)->Some_0,
        find_col(t, cname)->Some_0,
    )
}

/// What the pivot of `t` is: the sorted distinct row-dimension values, and
/// one column per distinct pivot-column value, named by its canonical text.
pub open spec fn is_pivot_of(
    out: Seq<ColV>,
    t: Seq<ColV>,
    ri: int,
    ci: int,
    mi: int,
    mode: MetricMode,
) -> bool {
    let rks = group_keys(t, seq![ri]);
    let cks = ckeys_of(t, ci);
    out.len() == 1 + cks.len() && out[0].name == t[ri].name && out[0].kind == t[ri].kind
        && out[0].cells == Seq::new(rks.len(), |r: int| rks[r][0]) && (forall|j: int|
        0 <= j < cks.len() ==> (#[trigger] out[1 + j]).name == val_text(cks[j][0]) && out[1
            + j].kind == metric_kind(t[mi].kind, mode) && out[1 + j].cells == Seq::new(
            rks.len(),
            |r: int| pivot_cell(t, ri, ci, mi, mode, rks[r][0], cks[j][0]),
        ))
}

/// How a pivot-mode query ends: the first metric whose mode is the
/// unimplemented rate aborts; otherwise the first metric whose pivot can
/// succeed is taken and the rest are discarded; failing that, nothing.
pub enum PivotScan {
    NotImpl,
    Found(int),
    Nothing,
}

pub open spec fn pivot_scan(
    t: Seq<ColV>,
    rname: Seq<char>,
    cname: Seq<char>,
    ms: Seq<Metric>,
    i: int,
) -> PivotScan
    decreases ms.len() - i,
{
    if i < 0 || i >= ms.len() {
        PivotScan::Nothing
    } else if ms[i].mode == MetricMode::Rate {
        PivotScan::NotImpl
    } else if pivot_ok(t, rname, cname, ms[i]) {
        PivotScan::Found(i)
    } else {
        pivot_scan(t, rname, cname, ms, i + 1)
    }
}

proof fn lemma_rows_matching2_bounds(t: Seq<ColV>, ri: int, ci: int, rv: ValV, cv: ValV, n: int)
    requires
        n >= 0,
    ensures
        forall|j: int|
            0 <= j < rows_matching2(t, ri, ci, rv, cv, n).len() ==> 0 <= #[trigger] rows_matching2(
                t,
                ri,
                ci,
                rv,
                cv,
                n,
            )[j] < n,
    decreases n,
{
    if n > 0 {
        lemma_rows_matching2_bounds(t, ri, ci, rv, cv, n - 1);
        let pre = rows_matching2(t, ri, ci, rv, cv, n - 1);
        let cur = rows_matching2(t, ri, ci, rv, cv, n);
        assert forall|j: int| 0 <= j < cur.len() implies 0 <= #[trigger] cur[j] < n by {
            if j < pre.len() {
                assert(cur[j] == pre[j]);
            } else {
                assert(cur[j] == n - 1);
            }
        }
    }
}

/// Every distinct pivot-column key is the value of some row.
proof fn lemma_ckeys_from_rows(t: Seq<ColV>, ci: int)
    ensures
        forall|j: int|
            0 <= j < ckeys_of(t, ci).len() ==> exists|row: int|
                0 <= row < table_rows(t) && #[trigger] ckeys_of(t, ci)[j] == row_key(
                    t,
                    seq![ci],
                    row,
                ),
{
    lemma_dedup_sub(all_keys(t, seq![ci]));
    assert forall|j: int| 0 <= j < ckeys_of(t, ci).len() implies exists|row: int|
        0 <= row < table_rows(t) && #[trigger] ckeys_of(t, ci)[j] == row_key(t, seq![ci], row) by {
        let k = ckeys_of(t, ci)[j];
        assert(ckeys_of(t, ci).contains(k));
        assert(all_keys(t, seq![ci]).contains(k));
        let row = choose|row: int|
            0 <= row < all_keys(t, seq![ci]).len() && all_keys(t, seq![ci])[row] == k;
        assert(k == row_key(t, seq![ci], row));
    }
}

/// The distinct values of column `ci`, in first-seen order, as keys.
fn collect_ckeys(t: &Table, ci: usize) -> (cks: Vec<Vec<Value>>)
    requires
        wf_table(t@),
        ci < t@.len(),
    ensures
        keysv(cks@) == ckeys_of(t@, ci as int),
        forall|x: int| 0 <= x < cks@.len() ==> (#[trigger] cks@[x])@.len() == 1,
{
    let mut dimsc: Vec<usize> = Vec::new();
    dimsc.push(ci);
    let ghost civ = seq![ci as int];
    proof {
        assert(Seq::new(dimsc@.len(), |j: int| dimsc@[j] as int) =~= civ);
    }
    let rows = t.row_count();
    let mut cks: Vec<Vec<Value>> = Vec::new();
    let mut r: usize = 0;
    proof {
        assert(all_keys(t@, civ).take(0) =~= Seq::<Seq<ValV>>::empty());
        assert(keysv(cks@) =~= Seq::<Seq<ValV>>::empty());
    }
    while r < rows
        invariant
            0 <= r <= rows,
            rows == table_rows(t@),
            wf_table(t@),
            ci < t@.len(),
            dimsc@.len() == 1 && dimsc@[0] == ci,
            civ == seq![ci as int],
            civ == Seq::new(dimsc@.len(), |j: int| dimsc@[j] as int),
            keysv(cks@) == dedup_keys(all_keys(t@, civ).take(r as int)),
            forall|x: int| 0 <= x < cks@.len() ==> (#[trigger] cks@[x])@.len() == 1,
        decreases rows - r,
    {
        let key = extract_key(t, &dimsc, r);
        proof {
            assert(all_keys(t@, civ).take(r + 1).drop_last() =~= all_keys(t@, civ).take(r as int));
            assert(all_keys(t@, civ).take(r + 1).last() == row_key(t@, civ, r as int));
        }
        if !contains_key(&cks, &key) {
            cks.push(key);
            proof {
                assert(keysv(cks@) =~= keysv(cks@.drop_last()).push(cellseq(cks@.last()@)));
            }
        }
        r = r + 1;
    }
    proof {
        assert(all_keys(t@, civ).take(table_rows(t@)) =~= all_keys(t@, civ));
    }
    cks
}

/// A pivot value carries only what its column's cells allow.
proof fn lemma_ckey_cell(t: Seq<ColV>, ci: int, j: int)
    requires
        wf_table(t),
        bounded_table(t),
        0 <= ci < t.len(),
        0 <= j < ckeys_of(t, ci).len(),
    ensures
        cell_ok(t[ci].kind, ckeys_of(t, ci)[j][0]),
        cell_bounded(ckeys_of(t, ci)[j][0]),
{
    lemma_ckeys_from_rows(t, ci);
    assert(exists|row: int|
        0 <= row < table_rows(t) && #[trigger] ckeys_of(t, ci)[j] == row_key(t, seq![ci], row));
    let row = choose|row: int|
        0 <= row < table_rows(t) && ckeys_of(t, ci)[j] == row_key(t, seq![ci], row);
    assert(seq![ci][0] == ci);
    assert(row_key(t, seq![ci], row)[0] == t[ci].cells[row]);
    assert(wf_col(t[ci]) && bounded_col(t[ci]));
    assert(cell_ok(t[ci].kind, t[ci].cells[row]) && cell_bounded(t[ci].cells[row]));
}

/// Checks that the generated pivot column names would not collide.
fn pivot_names_ok_x(t: &Table, ri: usize, ci: usize) -> (r: bool)
    requires
        wf_table(t@),
        bounded_table(t@),
        ri < t@.len(),
        ci < t@.len(),
    ensures
        r == pivot_names_ok(t@, ri as int, ci as int),
{
    let cks = collect_ckeys(t, ci);
    let ghost cksv = ckeys_of(t@, ci as int);
    let mut texts: Vec<Vec<char>> = Vec::new();
    let mut j: usize = 0;
    while j < cks.len()
        invariant
            0 <= j <= cks@.len(),
            wf_table(t@),
            bounded_table(t@),
            ci < t@.len(),
            keysv(cks@) == cksv,
            cksv == ckeys_of(t@, ci as int),
            forall|x: int| 0 <= x < cks@.len() ==> (#[trigger] cks@[x])@.len() == 1,
            texts@.len() == j,
            forall|x: int| 0 <= x < j ==> (#[trigger] texts@[x])@ == val_text(cksv[x][0]),
        decreases cks@.len() - j,
    {
        proof {
            lemma_ckey_cell(t@, ci as int, j as int);
            assert(cks@[j as int]@[0]@ == cksv[j as int][0]);
        }
        let mut txt: Vec<char> = Vec::new();
        crate::text::push_val_text(&cks[j][0], &mut txt);
        texts.push(txt);
        j = j + 1;
    }
    let rname = &t.cols[ri].name;
    let mut j: usize = 0;
    while j < texts.len()
        invariant
            0 <= j <= texts@.len() == cksv.len(),
            ri < t@.len() && ci < t@.len(),
            cksv == ckeys_of(t@, ci as int),
            rname@ == t@[ri as int].name,
            forall|x: int| 0 <= x < texts@.len() ==> (#[trigger] texts@[x])@ == val_text(
                cksv[x][0],
            ),
            forall|x: int| 0 <= x < j ==> val_text((#[trigger] cksv[x])[0]) != t@[ri as int].name,
        decreases texts@.len() - j,
    {
        if chars_eq(&texts[j], rname) {
            proof {
                assert(val_text((cksv[j as int])[0]) == t@[ri as int].name);
            }
            return false;
        }
        j = j + 1;
    }
    let mut a: usize = 0;
    while a < texts.len()
        invariant
            0 <= a <= texts@.len() == cksv.len(),
            ri < t@.len() && ci < t@.len(),
            cksv == ckeys_of(t@, ci as int),
            forall|x: int| 0 <= x < texts@.len() ==> (#[trigger] texts@[x])@ == val_text(
                cksv[x][0],
            ),
            forall|x: int| 0 <= x < cksv.len() ==> val_text((#[trigger] cksv[x])[0]) != t@[
                ri as int
            ].name,
            forall|x: int, y: int|
                0 <= x < a && x < y < cksv.len() ==> val_text(cksv[x][0]) != val_text(cksv[y][0]),
        decreases texts@.len() - a,
    {
        let mut b: usize = a + 1;
        while b < texts.len()
            invariant
                0 <= a < b <= texts@.len() == cksv.len(),
                ri < t@.len() && ci < t@.len(),
                cksv == ckeys_of(t@, ci as int),
                forall|x: int| 0 <= x < texts@.len() ==> (#[trigger] texts@[x])@ == val_text(
                    cksv[x][0],
                ),
                forall|y: int| a < y < b ==> val_text(cksv[a as int][0]) != val_text(
                    (#[trigger] cksv[y])[0],
                ),
            decreases texts@.len() - b,
        {
            if chars_eq(&texts[a], &texts[b]) {
                proof {
                    assert(val_text((cksv[a as int])[0]) == val_text((cksv[b as int])[0]));
                }
                return false;
            }
            b = b + 1;
        }
        a = a + 1;
    }
    true
}

/// Builds the pivot table of `t`.
fn pivot_exec(t: &Table, ri: usize, ci: usize, mi: usize, mode: MetricMode) -> (out: Table)
    requires
        wf_table(t@),
        bounded_table(t@),
        ri < t@.len(),
        ci < t@.len(),
        mi < t@.len(),
        metric_ok(t@[mi as int].kind, mode),
        pivot_names_ok(t@, ri as int, ci as int),
    ensures
        is_pivot_of(out@, t@, ri as int, ci as int, mi as int, mode),
        wf_table(out@),
{
    let ghost riv = seq![ri as int];
    let cks = collect_ckeys(t, ci);
    let ghost cksv = ckeys_of(t@, ci as int);
    let mut dimsr: Vec<usize> = Vec::new();
    dimsr.push(ri);
    proof {
        assert(Seq::new(dimsr@.len(), |j: int| dimsr@[j] as int) =~= riv);
    }
    let rows = t.row_count();
    let mut rdist: Vec<Vec<Value>> = Vec::new();
    let mut r: usize = 0;
    proof {
        assert(all_keys(t@, riv).take(0) =~= Seq::<Seq<ValV>>::empty());
        assert(keysv(rdist@) =~= Seq::<Seq<ValV>>::empty());
    }
    while r < rows
        invariant
            0 <= r <= rows,
            rows == table_rows(t@),
            wf_table(t@),
            ri < t@.len(),
            dimsr@.len() == 1 && dimsr@[0] == ri,
            riv == seq![ri as int],
            riv == Seq::new(dimsr@.len(), |j: int| dimsr@[j] as int),
            keysv(rdist@) == dedup_keys(all_keys(t@, riv).take(r as int)),
            forall|x: int| 0 <= x < rdist@.len() ==> (#[trigger] rdist@[x])@.len() == 1,
        decreases rows - r,
    {
        let key = extract_key(t, &dimsr, r);
        proof {
            assert(all_keys(t@, riv).take(r + 1).drop_last() =~= all_keys(t@, riv).take(r as int));
            assert(all_keys(t@, riv).take(r + 1).last() == row_key(t@, riv, r as int));
        }
        if !contains_key(&rdist, &key) {
            rdist.push(key);
            proof {
                assert(keysv(rdist@) =~= keysv(rdist@.drop_last()).push(cellseq(rdist@.last()@)));
            }
        }
        r = r + 1;
    }
    proof {
        assert(all_keys(t@, riv).take(table_rows(t@)) =~= all_keys(t@, riv));
    }
    let ghost dkeys = dedup_keys(all_keys(t@, riv));
    let mut sorted: Vec<Vec<Value>> = Vec::new();
    let mut g: usize = 0;
    proof {
        assert(dkeys.take(0) =~= Seq::<Seq<ValV>>::empty());
        assert(keysv(sorted@) =~= Seq::<Seq<ValV>>::empty());
    }
    while g < rdist.len()
        invariant
            0 <= g <= rdist@.len(),
            keysv(rdist@) == dkeys,
            forall|x: int| 0 <= x < rdist@.len() ==> (#[trigger] rdist@[x])@.len() == 1,
            forall|x: int| 0 <= x < sorted@.len() ==> (#[trigger] sorted@[x])@.len() == 1,
            keysv(sorted@) == sort_keys(dkeys.take(g as int)),
        decreases rdist@.len() - g,
    {
        let key = dup_key(&rdist[g]);
        let ghost kv = cellseq(key@);
        let mut pos: usize = 0;
        while pos < sorted.len() && !key_le_x(&key, &sorted[pos])
            invariant
                0 <= pos <= sorted@.len(),
                key@.len() == 1,
                kv == cellseq(key@),
                forall|x: int| 0 <= x < sorted@.len() ==> (#[trigger] sorted@[x])@.len() == 1,
                forall|x: int| 0 <= x < pos ==> !key_le(kv, keysv(sorted@)[x]),
            decreases sorted@.len() - pos,
        {
            proof {
                assert(keysv(sorted@)[pos as int] == cellseq(sorted@[pos as int]@));
            }
            pos = pos + 1;
        }
        proof {
            if pos < sorted@.len() {
                assert(key_le(kv, keysv(sorted@)[pos as int]));
            }
            lemma_insert_sorted_at(keysv(sorted@), kv, pos as int);
        }
        let ghost oldsv = keysv(sorted@);
        sorted.insert(pos, key);
        g = g + 1;
        proof {
            assert(keysv(sorted@) =~= oldsv.take(pos as int) + seq![kv] + oldsv.skip(pos as int));
            assert(dkeys.take(g as int).drop_last() =~= dkeys.take(g - 1));
            assert(dkeys.take(g as int).last() == dkeys[g - 1]);
            assert(dkeys[g - 1] == kv);
            assert(keysv(sorted@) == sort_keys(dkeys.take(g as int)));
        }
    }
    proof {
        assert(dkeys.take(rdist@.len() as int) =~= dkeys);
        assert(keysv(sorted@) == group_keys(t@, riv));
    }
    let ghost rks = group_keys(t@, riv);
    let nkeys = sorted.len();
    let mut cols: Vec<Column> = Vec::new();
    let mut cells0: Vec<Value> = Vec::new();
    let mut r: usize = 0;
    while r < nkeys
        invariant
            0 <= r <= nkeys == sorted@.len(),
            rks == keysv(sorted@),
            forall|x: int| 0 <= x < sorted@.len() ==> (#[trigger] sorted@[x])@.len() == 1,
            cells0@.len() == r,
            forall|x: int| 0 <= x < r ==> (#[trigger] cells0@[x])@ == rks[x][0],
        decreases nkeys - r,
    {
        proof {
            assert(rks[r as int] == cellseq(sorted@[r as int]@));
        }
        cells0.push(sorted[r][0].dup());
        r = r + 1;
    }
    cols.push(Column { name: dup_chars(&t.cols[ri].name), kind: t.cols[ri].kind, cells: cells0 });
    proof {
        assert(cols@[0]@.cells =~= Seq::new(rks.len(), |r: int| rks[r][0]));
    }
    let mut j: usize = 0;
    while j < cks.len()
        invariant
            0 <= j <= cks@.len(),
            wf_table(t@),
            bounded_table(t@),
            ri < t@.len() && ci < t@.len() && mi < t@.len(),
            t@.len() == t.cols@.len(),
            metric_ok(t@[mi as int].kind, mode),
            riv == seq![ri as int],
            keysv(cks@) == cksv,
            cksv == ckeys_of(t@, ci as int),
            forall|x: int| 0 <= x < cks@.len() ==> (#[trigger] cks@[x])@.len() == 1,
            nkeys == sorted@.len(),
            rks == keysv(sorted@),
            rks == group_keys(t@, riv),
            forall|x: int| 0 <= x < sorted@.len() ==> (#[trigger] sorted@[x])@.len() == 1,
            cols@.len() == 1 + j,
            cols@[0]@.name == t@[ri as int].name && cols@[0]@.kind == t@[ri as int].kind
                && cols@[0]@.cells == Seq::new(rks.len(), |r: int| rks[r][0]),
            forall|x: int|
                0 <= x < j ==> (#[trigger] cols@[1 + x]@).name == val_text(cksv[x][0]) && cols@[1
                    + x]@.kind == metric_kind(t@[mi as int].kind, mode) && cols@[1 + x]@.cells
                    == Seq::new(
                    rks.len(),
                    |r: int|
                        pivot_cell(
                            t@,
                            ri as int,
                            ci as int,
                            mi as int,
                            mode,
                            rks[r][0],
                            cksv[x][0],
                        ),
                ),
        decreases cks@.len() - j,
    {
        proof {
            lemma_ckey_cell(t@, ci as int, j as int);
            assert(cks@[j as int]@[0]@ == cksv[j as int][0]);
        }
        let mut txt: Vec<char> = Vec::new();
        crate::text::push_val_text(&cks[j][0], &mut txt);
        let mut cells: Vec<Value> = Vec::new();
        let mut r: usize = 0;
        while r < nkeys
            invariant
                0 <= r <= nkeys == sorted@.len(),
                0 <= j < cks@.len(),
                wf_table(t@),
                bounded_table(t@),
                ri < t@.len() && ci < t@.len() && mi < t@.len(),
                t@.len() == t.cols@.len(),
                metric_ok(t@[mi as int].kind, mode),
                keysv(cks@) == cksv,
                forall|x: int| 0 <= x < cks@.len() ==> (#[trigger] cks@[x])@.len() == 1,
                rks == keysv(sorted@),
                forall|x: int| 0 <= x < sorted@.len() ==> (#[trigger] sorted@[x])@.len() == 1,
                cells@.len() == r,
                forall|x: int|
                    0 <= x < r ==> (#[trigger] cells@[x])@ == pivot_cell(
                        t@,
                        ri as int,
                        ci as int,
                        mi as int,
                        mode,
                        rks[x][0],
                        cksv[j as int][0],
                    ) && cell_ok(metric_kind(t@[mi as int].kind, mode), cells@[x]@),
            decreases nkeys - r,
        {
            let rows2 = t.row_count();
            let mut matching: Vec<usize> = Vec::new();
            let mut row: usize = 0;
            proof {
                assert(rks[r as int] == cellseq(sorted@[r as int]@));
                assert(cks@[j as int]@[0]@ == cksv[j as int][0]);
                assert(idxsv(matching@) =~= Seq::<int>::empty());
            }
            while row < rows2
                invariant
                    0 <= row <= rows2,
                    rows2 == table_rows(t@),
                    wf_table(t@),
                    ri < t@.len() && ci < t@.len(),
                    t@.len() == t.cols@.len(),
                    0 <= r < sorted@.len(),
                    0 <= j < cks@.len(),
                    sorted@[r as int]@.len() == 1,
                    rks == keysv(sorted@),
                    keysv(cks@) == cksv,
                    cks@[j as int]@.len() == 1,
                    idxsv(matching@) == rows_matching2(
                        t@,
                        ri as int,
                        ci as int,
                        rks[r as int][0],
                        cksv[j as int][0],
                        row as int,
                    ),
                    forall|x: int| 0 <= x < matching@.len() ==> #[trigger] matching@[x]
                        < table_rows(t@),
                decreases rows2 - row,
            {
                proof {
                    assert(wf_col(t@[ri as int]) && t@[ri as int].cells.len() == table_rows(t@));
                    assert(wf_col(t@[ci as int]) && t@[ci as int].cells.len() == table_rows(t@));
                    assert(rks[r as int] == cellseq(sorted@[r as int]@));
                    assert(cks@[j as int]@[0]@ == cksv[j as int][0]);
                }
                let rmatch = val_eq(&t.cols[ri].cells[row], &sorted[r][0]);
                let cmatch = val_eq(&t.cols[ci].cells[row], &cks[j][0]);
                if rmatch && cmatch {
                    matching.push(row);
                }
                row = row + 1;
                proof {
                    assert(idxsv(matching@) =~= rows_matching2(
                        t@,
                        ri as int,
                        ci as int,
                        rks[r as int][0],
                        cksv[j as int][0],
                        row as int,
                    ));
                }
            }
            let v = if matching.len() == 0 {
                Value::Null
            } else {
                proof {
                    assert(wf_col(t@[mi as int]) && t@[mi as int].cells.len() == table_rows(t@));
                    assert(bounded_col(t@[mi as int]));
                    assert(t.cols@[mi as int]@ == t@[mi as int]);
                }
                agg_exec(mode, &t.cols[mi], &matching)
            };
            cells.push(v);
            r = r + 1;
        }
        cols.push(
            Column { name: txt, kind: metric_kind_x(t.cols[mi].kind, mode), cells },
        );
        j = j + 1;
        proof {
            assert(cols@[cols@.len() - 1]@.cells =~= Seq::new(
                rks.len(),
                |r: int|
                    pivot_cell(
                        t@,
                        ri as int,
                        ci as int,
                        mi as int,
                        mode,
                        rks[r][0],
                        cksv[j - 1][0],
                    ),
            ));
        }
    }
    let out = Table { cols };
    proof {
        assert(is_pivot_of(out@, t@, ri as int, ci as int, mi as int, mode));
        lemma_group_keys_from_rows(t@, riv);
        assert(out@[0].cells.len() == rks.len());
        assert(table_rows(out@) == rks.len());
        assert forall|x: int| 0 <= x < out@.len() implies wf_col(#[trigger] out@[x])
            && out@[x].cells.len() == table_rows(out@) by {
            if x == 0 {
                assert forall|rr: int| 0 <= rr < out@[0].cells.len() implies cell_ok(
                    out@[0].kind,
                    #[trigger] out@[0].cells[rr],
                ) by {
                    assert(rks[rr] == group_keys(t@, riv)[rr]);
                    let row = choose|row: int|
                        0 <= row < table_rows(t@) && row_key(t@, riv, row) == rks[rr];
                    assert(rks[rr][0] == t@[ri as int].cells[row]);
                    assert(wf_col(t@[ri as int]));
                    assert(cell_ok(t@[ri as int].kind, t@[ri as int].cells[row]));
                }
            } else {
                let mj = x - 1;
                assert(out@[1 + mj].kind == metric_kind(t@[mi as int].kind, mode));
                assert forall|rr: int| 0 <= rr < out@[x].cells.len() implies cell_ok(
                    out@[x].kind,
                    #[trigger] out@[x].cells[rr],
                ) by {
                    let g = rows_matching2(
                        t@,
                        ri as int,
                        ci as int,
                        rks[rr][0],
                        cksv[mj][0],
                        table_rows(t@),
                    );
                    lemma_rows_matching2_bounds(
                        t@,
                        ri as int,
                        ci as int,
                        rks[rr][0],
                        cksv[mj][0],
                        table_rows(t@),
                    );
                    assert(wf_col(t@[mi as int]) && t@[mi as int].cells.len() == table_rows(t@));
                    if g.len() > 0 {
                        lemma_agg_val_ok(mode, t@[mi as int].kind, t@[mi as int].cells, g);
                    }
                }
            }
        }
        assert forall|x: int, y: int| 0 <= x < y < out@.len() implies out@[x].name
            != out@[y].name by {
            if x == 0 {
                assert(out@[1 + (y - 1)].name == val_text(cksv[y - 1][0]));
                assert(out@[y].name == val_text(cksv[y - 1][0]));
            } else {
                assert(out@[1 + (x - 1)].name == val_text(cksv[x - 1][0]));
                assert(out@[1 + (y - 1)].name == val_text(cksv[y - 1][0]));
                assert(out@[x].name == val_text(cksv[x - 1][0]));
                assert(out@[y].name == val_text(cksv[y - 1][0]));
            }
        }
        assert(wf_table(out@));
    }
    out
}

/// The whole query pipeline: filter, then pivot or aggregate or pass the
/// filtered rows through, per the dimensions given.
pub fn search_table(t: &Table, q: &Query) -> (res: Result<Table, EngineError>)
    requires
        wf_table(t@),
        bounded_table(t@),
    ensures
        ({
            let ft = select_rows(t@, kept_rows(t@, q.search@, table_rows(t@)));
            let pivotmode = q.dimensions.columns@.len() > 0 && q.dimensions.rows@.len() > 0;
            let aggmode = !pivotmode && q.dimensions.rows@.len() > 0;
            match res {
                Ok(out) => wf_table(out@) && (if pivotmode {
                    match pivot_scan(
                        ft,
                        q.dimensions.rows@[0]@,
                        q.dimensions.columns@[0]@,
                        q.metrics@,
                        0,
                    ) {
                        PivotScan::Found(i) => is_pivot_of(
                            out@,
                            ft,
                            find_col(ft, q.dimensions.rows@[0]@)->Some_0,
                            find_col(ft, q.dimensions.columns@[0]@)->Some_0,
                            find_col(ft, q.metrics@[i].index@)->Some_0,
                            q.metrics@[i].mode,
                        ),
                        PivotScan::Nothing => out@ == ft,
                        PivotScan::NotImpl => false,
                    }
                } else if aggmode {
                    agg_err(ft, q.dimensions.rows@, q.metrics@) is None && is_aggregate_of(
                        out@,
                        ft,
                        dims_resolved(ft, q.dimensions.rows@),
                        q.metrics@,
                    )
                } else {
                    out@ == ft
                }),
                Err(e) => if pivotmode {
                    pivot_scan(
                        ft,
                        q.dimensions.rows@[0]@,
                        q.dimensions.columns@[0]@,
                        q.metrics@,
                        0,
                    ) == PivotScan::NotImpl && e@ == ErrV::NotImplemented
                } else if aggmode {
                    agg_err(ft, q.dimensions.rows@, q.metrics@) == Some(e@)
                } else {
                    false
                },
            }
        }),
{
    let ft = filter_table(t, &q.search);
    let ghost ftv = select_rows(t@, kept_rows(t@, q.search@, table_rows(t@)));
    if q.dimensions.columns.len() > 0 && q.dimensions.rows.len() > 0 {
        let rn = &q.dimensions.rows[0];
        let cn = &q.dimensions.columns[0];
        let mut i: usize = 0;
        while i < q.metrics.len()
            invariant
                0 <= i <= q.metrics@.len(),
                wf_table(ft@),
                bounded_table(ft@),
                ft@ == ftv,
                rn@ == q.dimensions.rows@[0]@,
                cn@ == q.dimensions.columns@[0]@,
                pivot_scan(ftv, rn@, cn@, q.metrics@, 0) == pivot_scan(
                    ftv,
                    rn@,
                    cn@,
                    q.metrics@,
                    i as int,
                ),
                q.dimensions.columns@.len() > 0 && q.dimensions.rows@.len() > 0,
                ftv == select_rows(t@, kept_rows(t@, q.search@, table_rows(t@))),
            decreases q.metrics@.len() - i,
        {
            let m = &q.metrics[i];
            match m.mode {
                MetricMode::Rate => {
                    return Err(EngineError::NotImplemented);
                },
                _ => {},
            }
            let ok = match (ft.col_index(rn), ft.col_index(cn), ft.col_index(&m.index)) {
                (Some(ri), Some(ci), Some(mi)) => {
                    if metric_ok_x(ft.cols[mi].kind, m.mode) {
                        if pivot_names_ok_x(&ft, ri, ci) {
                            proof {
                                assert(pivot_ok(ftv, rn@, cn@, q.metrics@[i as int]));
                                assert(pivot_scan(ftv, rn@, cn@, q.metrics@, i as int)
                                    == PivotScan::Found(i as int));
                            }
                            let out = pivot_exec(&ft, ri, ci, mi, m.mode);
                            return Ok(out);
                        }
                        false
                    } else {
                        false
                    }
                },
                _ => false,
            };
            proof {
                assert(!ok);
                assert(!pivot_ok(ftv, rn@, cn@, q.metrics@[i as int]));
            }
            i = i + 1;
        }
        Ok(ft)
    } else if q.dimensions.rows.len() > 0 {
        aggregate(&ft, &q.dimensions.rows, &q.metrics)
    } else {
        Ok(ft)
    }
}

} // verus!
