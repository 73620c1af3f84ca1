//! The engine's cross-cutting guarantees, stated and proved once: the
//! fallback policy of the readers, filter range inclusivity, the pivot
//! single-metric cutoff, pagination clamping, and determinism of
//! normalization.

use vstd::prelude::*;

use crate::agg::PivotScan;
use crate::agg::pivot_ok;
use crate::agg::pivot_scan;
use crate::etl::coerce_cell;
use crate::etl::normalize_spec;
use crate::parse::float_extract;
use crate::parse::int_extract;
use crate::parse::layout_find_from;
use crate::query::FilterItem;
use crate::query::FilterMode;
use crate::query::Metric;
use crate::query::MetricMode;
use crate::query::entry_pass;
use crate::query::parsed_ints;
use crate::query::strsv;
use crate::table::ColV;
use crate::table::find_col;
use crate::table::slice_hi;
use crate::table::slice_lo;
use crate::table::table_rows;
use crate::value::ColumnType;
use crate::value::ErrV;
use crate::value::ValV;

verus! {

/// Fallback policy: a text cell coerced to the date target never becomes
/// missing — text matching no layout becomes the sentinel `2000-01-01` —
/// while a text cell no integer or float can be read from becomes missing,
/// never a sentinel.
pub proof fn law_fallback_policy(s: Seq<char>)
    ensures
        match coerce_cell(ColumnType::Date, ValV::Text(s)) {
            Some(v) => v is Date,
            None => true,
        },
        (forall|k: int| 0 <= k < 6 ==> layout_find_from(s, k, 0) is None) ==> coerce_cell(
            ColumnType::Date,
            ValV::Text(s),
        ) == Some(ValV::Date(2000, 1, 1)),
        (int_extract(s) is None) ==> coerce_cell(ColumnType::Integer, ValV::Text(s)) == Some(
            ValV::Null,
        ),
        (float_extract(s) is None) ==> coerce_cell(ColumnType::Float, ValV::Text(s)) == Some(
            ValV::Null,
        ),
{
    if forall|k: int| 0 <= k < 6 ==> layout_find_from(s, k, 0) is None {
        assert(layout_find_from(s, 0, 0) is None);
        assert(layout_find_from(s, 1, 0) is None);
        assert(layout_find_from(s, 2, 0) is None);
        assert(layout_find_from(s, 3, 0) is None);
        assert(layout_find_from(s, 4, 0) is None);
        assert(layout_find_from(s, 5, 0) is None);
    }
}

/// Range filter inclusivity: an integer range filter keeps rows whose
/// value equals either bound.
pub proof fn law_range_inclusive(t: Seq<ColV>, e: FilterItem, r: int, lo: int, hi: int)
    requires
        (find_col(t, e.index@) is Some),
        t[find_col(t, e.index@)->Some_0].kind == crate::value::DataKind::Int,
        e.mode == FilterMode::DateRange,
        parsed_ints(strsv(e.value@)) == Some(seq![lo, hi]),
        (t[find_col(t, e.index@)->Some_0].cells[r] is Int),
        lo <= t[find_col(t, e.index@)->Some_0].cells[r]->Int_0 <= hi,
    ensures
        entry_pass(t, e, r),
{
}

/// Pivot single-metric cutoff: when the scan lands on metric `i`, that
/// metric's pivot succeeds, no earlier metric's could, and no earlier
/// metric asked for the unimplemented rate.
pub proof fn law_pivot_first_success(
    t: Seq<ColV>,
    rn: Seq<char>,
    cn: Seq<char>,
    ms: Seq<Metric>,
    i: int,
)
    requires
        pivot_scan(t, rn, cn, ms, 0) == PivotScan::Found(i),
    ensures
        0 <= i < ms.len(),
        ms[i].mode != MetricMode::Rate,
        pivot_ok(t, rn, cn, ms[i]),
        forall|j: int|
            0 <= j < i ==> !pivot_ok(t, rn, cn, #[trigger] ms[j]) && ms[j].mode
                != MetricMode::Rate,
{
    law_pivot_scan_from(t, rn, cn, ms, 0, i);
}

proof fn law_pivot_scan_from(
    t: Seq<ColV>,
    rn: Seq<char>,
    cn: Seq<char>,
    ms: Seq<Metric>,
    from: int,
    i: int,
)
    requires
        0 <= from,
        pivot_scan(t, rn, cn, ms, from) == PivotScan::Found(i),
    ensures
        from <= i < ms.len(),
        ms[i].mode != MetricMode::Rate,
        pivot_ok(t, rn, cn, ms[i]),
        forall|j: int|
            from <= j < i ==> !pivot_ok(t, rn, cn, #[trigger] ms[j]) && ms[j].mode
                != MetricMode::Rate,
    decreases ms.len() - from,
{
    if from < ms.len() && ms[from].mode != MetricMode::Rate && !pivot_ok(t, rn, cn, ms[from]) {
        law_pivot_scan_from(t, rn, cn, ms, from + 1, i);
    }
}

/// Pagination boundary: a slice starting at or past the row count selects
/// no rows, never an error.
pub proof fn law_pagination_boundary(t: Seq<ColV>, start: int, limit: int)
    requires
        start >= table_rows(t),
        limit >= 0,
    ensures
        slice_hi(t, start, limit) - slice_lo(t, start) == 0,
{
}

/// Idempotence of normalization: the same raw table and mapping always
/// produce the same normalized table.
pub proof fn law_normalize_deterministic(
    t: Seq<ColV>,
    m: Seq<(Seq<char>, ColumnType)>,
    r1: Result<Seq<ColV>, ErrV>,
    r2: Result<Seq<ColV>, ErrV>,
)
    requires
        r1 == normalize_spec(t, m),
        r2 == normalize_spec(t, m),
    ensures
        r1 == r2,
{
}

} // verus!
