//! The declarative query model and the filtering stage: one predicate per
//! search entry, dispatched on the target column's kind and the entry's
//! mode; entries that cannot apply are skipped, never fatal.

use vstd::prelude::*;

use crate::parse::date_extract;
use crate::parse::digits_at;
use crate::parse::num_at;
use crate::parse::strict_float;
use crate::parse::strict_float_x;
use crate::parse::strict_int;
use crate::parse::strict_int_x;
use crate::parse::trim;
use crate::parse::trim_x;
use crate::table::ColV;
use crate::table::Column;
use crate::table::Table;
use crate::table::bounded_col;
use crate::table::bounded_table;
use crate::table::cellseq;
use crate::table::cell_ok;
use crate::table::chars_eq;
use crate::table::dup_chars;
use crate::table::find_col;
use crate::table::table_rows;
use crate::table::val_eq;
use crate::table::wf_col;
use crate::table::wf_table;
use crate::text::date_text;
use crate::value::DataKind;
use crate::value::ValV;
use crate::value::Value;
use crate::value::valid_date;

verus! {

/// How rows are grouped: row dimensions and pivot-column dimensions.
pub struct Dimension {
    pub rows: Vec<Vec<char>>,
    pub columns: Vec<Vec<char>>,
}

/// The aggregation modes. `Rate` is declared but unimplemented: requesting
/// it fails the query, it never silently substitutes another mode.
#[derive(Clone, Copy, PartialEq, Eq, Structural, Debug)]
pub enum MetricMode {
    Sum,
    Count,
    Max,
    Min,
    Avg,
    Rate,
}

/// The filter modes. Two names are historic: `DateRange` performs the
/// inclusive numeric range on integer columns, and `MatchPrefix` performs
/// the inclusive date range on date columns.
#[derive(Clone, Copy, PartialEq, Eq, Structural, Debug)]
pub enum FilterMode {
    Single,
    Multi,
    MatchPrefix,
    DateRange,
    DigitalRange,
}

/// A requested aggregation of one column.
pub struct Metric {
    pub index: Vec<char>,
    pub mode: MetricMode,
}

/// A declared filter; carried for compatibility, never consulted.
pub struct Filter {
    pub index: Vec<char>,
    pub mode: FilterMode,
}

/// One search entry: a column, a mode and the supplied values.
pub struct FilterItem {
    pub index: Vec<char>,
    pub mode: FilterMode,
    pub value: Vec<Vec<char>>,
}

/// A named calculation rule; carried for compatibility, never consulted.
pub struct Rule {
    pub name: Vec<char>,
    pub calc: Vec<char>,
}

/// The per-column type mapping handed to normalization.
pub struct Setting {
    pub columns: Vec<(Vec<char>, crate::value::ColumnType)>,
}

/// A whole query. Only `dimensions`, `metrics` and `search` drive the
/// engine; `filters` and `rules` are inert carried metadata.
pub struct Query {
    pub dimensions: Dimension,
    pub metrics: Vec<Metric>,
    pub filters: Vec<Filter>,
    pub rules: Vec<Rule>,
    pub search: Vec<FilterItem>,
}

/// The views of a sequence of supplied values.
pub open spec fn strsv(v: Seq<Vec<char>>) -> Seq<Seq<char>> {
    Seq::new(v.len(), |i: int| v[i]@)
}

/// All values read as strict integers, or nothing.
pub open spec fn parsed_ints(vals: Seq<Seq<char>>) -> Option<Seq<int>>
    decreases vals.len(),
{
    if vals.len() == 0 {
        Some(Seq::empty())
    } else {
        match parsed_ints(vals.drop_last()) {
            None => None,
            Some(pre) => match strict_int(vals.last()) {
                None => None,
                Some(v) => Some(pre.push(v)),
            },
        }
    }
}

/// All values read as strict decimals in micro-units, or nothing.
pub open spec fn parsed_floats(vals: Seq<Seq<char>>) -> Option<Seq<int>>
    decreases vals.len(),
{
    if vals.len() == 0 {
        Some(Seq::empty())
    } else {
        match parsed_floats(vals.drop_last()) {
            None => None,
            Some(pre) => match strict_float(vals.last()) {
                None => None,
                Some(v) => Some(pre.push(v)),
            },
        }
    }
}

pub open spec fn trimmed(vals: Seq<Seq<char>>) -> Seq<Seq<char>> {
    Seq::new(vals.len(), |i: int| trim(vals[i]))
}

/// Whether `s` starts with `p`.
pub open spec fn starts_with(s: Seq<char>, p: Seq<char>) -> bool {
    p.len() <= s.len() && s.take(p.len() as int) == p
}

/// A strict `YYYY-MM-DD` reading of a filter value.
pub open spec fn parse_date_strict(s: Seq<char>) -> Option<(int, int, int)> {
    if s.len() == 10 && digits_at(s, 0, 4) && s[4] == '-' && digits_at(s, 5, 2) && s[7] == '-'
        && digits_at(s, 8, 2) {
        let y = num_at(s, 0, 4);
        let m = num_at(s, 5, 2);
        let d = num_at(s, 8, 2);
        if valid_date(y, m, d) {
            Some((y, m, d))
        } else {
            None
        }
    } else {
        None
    }
}

pub open spec fn date_le(a: (int, int, int), b: (int, int, int)) -> bool {
    if a.0 != b.0 {
        a.0 < b.0
    } else if a.1 != b.1 {
        a.1 < b.1
    } else {
        a.2 <= b.2
    }
}

/// Whether row `r` passes search entry `e`; an entry whose column is
/// missing, whose values do not parse for the column's kind, or whose
/// mode/kind pairing is undefined passes every row (it is skipped).
pub open spec fn entry_pass(t: Seq<ColV>, e: FilterItem, r: int) -> bool {
    match find_col(t, e.index@) {
        None => true,
        Some(ci) => {
            let col = t[ci];
            let cell = col.cells[r];
            match col.kind {
                DataKind::Int => match parsed_ints(strsv(e.value@)) {
                    None => true,
                    Some(vs) => if vs.len() == 0 {
                        true
                    } else {
                        match e.mode {
                            FilterMode::Single | FilterMode::MatchPrefix => cell == ValV::Int(
                                vs[0],
                            ),
                            FilterMode::Multi => cell is Int && vs.contains(cell->Int_0),
                            FilterMode::DateRange => if vs.len() > 1 {
                                cell is Int && vs[0] <= cell->Int_0 <= vs[1]
                            } else {
                                true
                            },
                            _ => true,
                        }
                    },
                },
                DataKind::Float => match parsed_floats(strsv(e.value@)) {
                    None => true,
                    Some(vs) => if vs.len() == 0 {
                        true
                    } else {
                        match e.mode {
                            FilterMode::DigitalRange => if vs.len() > 1 {
                                cell is Float && vs[0] <= cell->Float_0 <= vs[1]
                            } else {
                                true
                            },
                            _ => true,
                        }
                    },
                },
                DataKind::Text => {
                    let vs = trimmed(strsv(e.value@));
                    if vs.len() == 0 {
                        true
                    } else {
                        match e.mode {
                            FilterMode::Single => cell == ValV::Text(vs[0]),
                            FilterMode::Multi => cell is Text && vs.contains(cell->Text_0),
                            FilterMode::MatchPrefix => cell is Text && starts_with(
                                cell->Text_0,
                                vs[0],
                            ),
                            _ => true,
                        }
                    }
                },
                DataKind::Date => {
                    let vs = trimmed(strsv(e.value@));
                    if vs.len() == 0 {
                        true
                    } else {
                        match e.mode {
                            FilterMode::Single => cell is Date && date_text(
                                cell->Date_0,
                                cell->Date_1,
                                cell->Date_2,
                            ) == vs[0],
                            FilterMode::Multi => cell is Date && vs.contains(
                                date_text(cell->Date_0, cell->Date_1, cell->Date_2),
                            ),
                            FilterMode::MatchPrefix => if vs.len() >= 2 {
                                match (parse_date_strict(vs[0]), parse_date_strict(vs[1])) {
                                    (Some(lo), Some(hi)) => cell is Date && date_le(
                                        lo,
                                        (cell->Date_0, cell->Date_1, cell->Date_2),
                                    ) && date_le((cell->Date_0, cell->Date_1, cell->Date_2), hi),
                                    _ => true,
                                }
                            } else {
                                true
                            },
                            _ => true,
                        }
                    }
                },
                DataKind::Bool => true,
            }
        },
    }
}

pub open spec fn entries_pass(t: Seq<ColV>, es: Seq<FilterItem>, r: int) -> bool
    decreases es.len(),
{
    if es.len() == 0 {
        true
    } else {
        entries_pass(t, es.drop_last(), r) && entry_pass(t, es.last(), r)
    }
}

/// The whole row predicate: the first column's value is present, and every
/// applicable search entry passes.
pub open spec fn row_pass(t: Seq<ColV>, es: Seq<FilterItem>, r: int) -> bool {
    t.len() > 0 && !(t[0].cells[r] is Null) && entries_pass(t, es, r)
}

/// The passing rows among the first `n`, in order.
pub open spec fn kept_rows(t: Seq<ColV>, es: Seq<FilterItem>, n: int) -> Seq<int>
    decreases n,
{
    if n <= 0 {
        Seq::empty()
    } else {
        kept_rows(t, es, n - 1) + (if row_pass(t, es, n - 1) {
            seq![n - 1]
        } else {
            Seq::empty()
        })
    }
}

/// The table holding exactly the given rows of `t`, in the given order.
pub open spec fn select_rows(t: Seq<ColV>, rows: Seq<int>) -> Seq<ColV> {
    Seq::new(
        t.len(),
        |i: int|
            ColV {
                name: t[i].name,
                kind: t[i].kind,
                cells: Seq::new(rows.len(), |j: int| t[i].cells[rows[j]]),
            },
    )
}

proof fn lemma_kept_rows_bounds(t: Seq<ColV>, es: Seq<FilterItem>, n: int)
    requires
        n >= 0,
    ensures
        kept_rows(t, es, n).len() <= n,
        forall|j: int|
            0 <= j < kept_rows(t, es, n).len() ==> 0 <= #[trigger] kept_rows(t, es, n)[j] < n,
    decreases n,
{
    if n > 0 {
        lemma_kept_rows_bounds(t, es, n - 1);
    }
}

/// Reads all values as strict integers.
fn parsed_ints_x(vals: &Vec<Vec<char>>) -> (r: Option<Vec<i64>>)
    ensures
        match r {
            Some(vs) => parsed_ints(strsv(vals@)) == Some(
                Seq::new(vs@.len(), |i: int| vs@[i] as int),
            ) && vs@.len() == vals@.len(),
            None => parsed_ints(strsv(vals@)) is None,
        },
{
    let mut out: Vec<i64> = Vec::new();
    let mut k: usize = 0;
    while k < vals.len()
        invariant
            0 <= k <= vals@.len(),
            out@.len() == k,
            parsed_ints(strsv(vals@).take(k as int)) == Some(
                Seq::new(out@.len(), |i: int| out@[i] as int),
            ),
        decreases vals@.len() - k,
    {
        proof {
            assert(strsv(vals@).take(k + 1).drop_last() =~= strsv(vals@).take(k as int));
            assert(strsv(vals@).take(k + 1).last() == vals@[k as int]@);
        }
        match strict_int_x(&vals[k]) {
            None => {
                proof {
                    lemma_parsed_ints_err(strsv(vals@), k + 1);
                }
                return None;
            },
            Some(v) => {
                out.push(v);
                k = k + 1;
                proof {
                    assert(Seq::new(out@.len(), |i: int| out@[i] as int) =~= Seq::new(
                        (out@.len() - 1) as nat,
                        |i: int| out@[i] as int,
                    ).push(out@.last() as int));
                    assert(Seq::new((out@.len() - 1) as nat, |i: int| out@[i] as int) =~= Seq::new(
                        out@.drop_last().len(),
                        |i: int| out@.drop_last()[i] as int,
                    ));
                }
            },
        }
    }
    proof {
        assert(strsv(vals@).take(vals@.len() as int) =~= strsv(vals@));
    }
    Some(out)
}

proof fn lemma_parsed_ints_err(vals: Seq<Seq<char>>, k: int)
    requires
        0 <= k <= vals.len(),
        parsed_ints(vals.take(k)) is None,
    ensures
        parsed_ints(vals) is None,
    decreases vals.len() - k,
{
    if k < vals.len() {
        assert(vals.take(k + 1).drop_last() =~= vals.take(k));
        lemma_parsed_ints_err(vals, k + 1);
    } else {
        assert(vals.take(k) =~= vals);
    }
}

/// Reads all values as strict decimals.
fn parsed_floats_x(vals: &Vec<Vec<char>>) -> (r: Option<Vec<i128>>)
    ensures
        match r {
            Some(vs) => parsed_floats(strsv(vals@)) == Some(
                Seq::new(vs@.len(), |i: int| vs@[i] as int),
            ) && vs@.len() == vals@.len(),
            None => parsed_floats(strsv(vals@)) is None,
        },
{
    let mut out: Vec<i128> = Vec::new();
    let mut k: usize = 0;
    while k < vals.len()
        invariant
            0 <= k <= vals@.len(),
            out@.len() == k,
            parsed_floats(strsv(vals@).take(k as int)) == Some(
                Seq::new(out@.len(), |i: int| out@[i] as int),
            ),
        decreases vals@.len() - k,
    {
        proof {
            assert(strsv(vals@).take(k + 1).drop_last() =~= strsv(vals@).take(k as int));
            assert(strsv(vals@).take(k + 1).last() == vals@[k as int]@);
        }
        match strict_float_x(&vals[k]) {
            None => {
                proof {
                    lemma_parsed_floats_err(strsv(vals@), k + 1);
                }
                return None;
            },
            Some(v) => {
                out.push(v);
                k = k + 1;
                proof {
                    assert(Seq::new(out@.len(), |i: int| out@[i] as int) =~= Seq::new(
                        (out@.len() - 1) as nat,
                        |i: int| out@[i] as int,
                    ).push(out@.last() as int));
                    assert(Seq::new((out@.len() - 1) as nat, |i: int| out@[i] as int) =~= Seq::new(
                        out@.drop_last().len(),
                        |i: int| out@.drop_last()[i] as int,
                    ));
                }
            },
        }
    }
    proof {
        assert(strsv(vals@).take(vals@.len() as int) =~= strsv(vals@));
    }
    Some(out)
}

proof fn lemma_parsed_floats_err(vals: Seq<Seq<char>>, k: int)
    requires
        0 <= k <= vals.len(),
        parsed_floats(vals.take(k)) is None,
    ensures
        parsed_floats(vals) is None,
    decreases vals.len() - k,
{
    if k < vals.len() {
        assert(vals.take(k + 1).drop_last() =~= vals.take(k));
        lemma_parsed_floats_err(vals, k + 1);
    } else {
        assert(vals.take(k) =~= vals);
    }
}

/// Trims every supplied value.
fn trimmed_x(vals: &Vec<Vec<char>>) -> (r: Vec<Vec<char>>)
    ensures
        r@.len() == vals@.len(),
        forall|i: int| 0 <= i < r@.len() ==> (#[trigger] r@[i])@ == trimmed(strsv(vals@))[i],
{
    let mut out: Vec<Vec<char>> = Vec::new();
    let mut k: usize = 0;
    while k < vals.len()
        invariant
            0 <= k <= vals@.len(),
            out@.len() == k,
            forall|i: int| 0 <= i < k ==> (#[trigger] out@[i])@ == trim(vals@[i]@),
        decreases vals@.len() - k,
    {
        out.push(trim_x(&vals[k]));
        k = k + 1;
    }
    out
}

/// Whether any of `vals` equals `s`.
fn contains_chars(vals: &Vec<Vec<char>>, s: &Vec<char>) -> (r: bool)
    ensures
        r == exists|i: int| 0 <= i < vals@.len() && (#[trigger] vals@[i])@ == s@,
{
    let mut k: usize = 0;
    while k < vals.len()
        invariant
            0 <= k <= vals@.len(),
            forall|i: int| 0 <= i < k ==> (#[trigger] vals@[i])@ != s@,
        decreases vals@.len() - k,
    {
        if chars_eq(&vals[k], s) {
            return true;
        }
        k = k + 1;
    }
    false
}

/// Whether `s` starts with `p`, executable form.
fn starts_with_x(s: &Vec<char>, p: &Vec<char>) -> (r: bool)
    ensures
        r == starts_with(s@, p@),
{
    if p.len() > s.len() {
        return false;
    }
    let mut k: usize = 0;
    while k < p.len()
        invariant
            0 <= k <= p@.len() <= s@.len(),
            forall|j: int| 0 <= j < k ==> s@[j] == p@[j],
        decreases p@.len() - k,
    {
        if s[k] != p[k] {
            proof {
                assert(s@.take(p@.len() as int)[k as int] != p@[k as int]);
            }
            return false;
        }
        k = k + 1;
    }
    proof {
        assert(s@.take(p@.len() as int) =~= p@);
    }
    true
}

/// A strict `YYYY-MM-DD` reading, executable form.
fn parse_date_strict_x(s: &Vec<char>) -> (r: Option<(i32, i32, i32)>)
    ensures
        match r {
            Some(p) => parse_date_strict(s@) == Some((p.0 as int, p.1 as int, p.2 as int)),
            None => parse_date_strict(s@) is None,
        },
{
    if s.len() != 10 {
        return None;
    }
    if !(crate::parse::digits_between(s, 0, 4) && s[4] == '-' && crate::parse::digits_between(
        s,
        5,
        7,
    ) && s[7] == '-' && crate::parse::digits_between(s, 8, 10)) {
        return None;
    }
    let y = crate::parse::read_num(s, 0, 4);
    let m = crate::parse::read_num(s, 5, 2);
    let d = crate::parse::read_num(s, 8, 2);
    if 1 <= m && m <= 12 && 1 <= d && d <= crate::value::days_in_month_x(y, m) {
        Some((y, m, d))
    } else {
        None
    }
}

/// Whether row `r` passes search entry `e`, executable form.
fn entry_pass_x(t: &Table, e: &FilterItem, r: usize) -> (res: bool)
    requires
        wf_table(t@),
        r < table_rows(t@),
    ensures
        res == entry_pass(t@, *e, r as int),
{
    let ci = match t.col_index(&e.index) {
        None => {
            return true;
        },
        Some(ci) => ci,
    };
    let col = &t.cols[ci];
    proof {
        assert(wf_col(t@[ci as int]) && t@[ci as int].cells.len() == table_rows(t@));
        assert(cell_ok(t@[ci as int].kind, t@[ci as int].cells[r as int]));
    }
    let cell = &col.cells[r];
    proof {
        assert(cell@ == t@[ci as int].cells[r as int]);
    }
    match col.kind {
        DataKind::Int => {
            let vs = match parsed_ints_x(&e.value) {
                None => {
                    return true;
                },
                Some(vs) => vs,
            };
            if vs.len() == 0 {
                return true;
            }
            let ghost vsv = Seq::new(vs@.len(), |i: int| vs@[i] as int);
            match e.mode {
                FilterMode::Single | FilterMode::MatchPrefix => {
                    match cell {
                        Value::Int(n) => *n == vs[0] as i128,
                        _ => false,
                    }
                },
                FilterMode::Multi => {
                    match cell {
                        Value::Int(n) => {
                            let mut k: usize = 0;
                            while k < vs.len()
                                invariant
                                    0 <= k <= vs@.len(),
                                    vsv == Seq::new(vs@.len(), |i: int| vs@[i] as int),
                                    forall|j: int| 0 <= j < k ==> vsv[j] != *n as int,
                                    parsed_ints(strsv(e.value@)) == Some(vsv),
                                    vsv.len() > 0,
                                    find_col(t@, e.index@) == Some(ci as int),
                                    ci < t@.len(),
                                    t@[ci as int].kind == DataKind::Int,
                                    e.mode == FilterMode::Multi,
                                    t@[ci as int].cells[r as int] == ValV::Int(*n as int),
                                decreases vs@.len() - k,
                            {
                                if vs[k] as i128 == *n {
                                    proof {
                                        assert(vsv[k as int] == *n as int);
                                        assert(vsv.contains(*n as int));
                                    }
                                    return true;
                                }
                                k = k + 1;
                            }
                            false
                        },
                        _ => false,
                    }
                },
                FilterMode::DateRange => {
                    if vs.len() > 1 {
                        match cell {
                            Value::Int(n) => vs[0] as i128 <= *n && *n <= vs[1] as i128,
                            _ => false,
                        }
                    } else {
                        true
                    }
                },
                _ => true,
            }
        },
        DataKind::Float => {
            let vs = match parsed_floats_x(&e.value) {
                None => {
                    return true;
                },
                Some(vs) => vs,
            };
            if vs.len() == 0 {
                return true;
            }
            match e.mode {
                FilterMode::DigitalRange => {
                    if vs.len() > 1 {
                        match cell {
                            Value::Float(u) => vs[0] <= *u && *u <= vs[1],
                            _ => false,
                        }
                    } else {
                        true
                    }
                },
                _ => true,
            }
        },
        DataKind::Text => {
            let vs = trimmed_x(&e.value);
            if vs.len() == 0 {
                return true;
            }
            match e.mode {
                FilterMode::Single => {
                    match cell {
                        Value::Text(s) => chars_eq(s, &vs[0]),
                        _ => false,
                    }
                },
                FilterMode::Multi => {
                    match cell {
                        Value::Text(s) => {
                            let found = contains_chars(&vs, s);
                            proof {
                                let tv = trimmed(strsv(e.value@));
                                if found {
                                    let i = choose|i: int|
                                        0 <= i < vs@.len() && (#[trigger] vs@[i])@ == s@;
                                    assert(tv[i] == s@);
                                } else {
                                    assert forall|i: int|
                                        0 <= i < tv.len() implies #[trigger] tv[i] != s@ by {
                                        assert(vs@[i]@ == tv[i]);
                                    }
                                }
                            }
                            found
                        },
                        _ => false,
                    }
                },
                FilterMode::MatchPrefix => {
                    match cell {
                        Value::Text(s) => starts_with_x(s, &vs[0]),
                        _ => false,
                    }
                },
                _ => true,
            }
        },
        DataKind::Date => {
            let vs = trimmed_x(&e.value);
            if vs.len() == 0 {
                return true;
            }
            match e.mode {
                FilterMode::Single => {
                    match cell {
                        Value::Date(dv) => {
                            let mut txt: Vec<char> = Vec::new();
                            crate::text::push_date_text(*dv, &mut txt);
                            chars_eq(&txt, &vs[0])
                        },
                        _ => false,
                    }
                },
                FilterMode::Multi => {
                    match cell {
                        Value::Date(dv) => {
                            let mut txt: Vec<char> = Vec::new();
                            crate::text::push_date_text(*dv, &mut txt);
                            let found = contains_chars(&vs, &txt);
                            proof {
                                let tv = trimmed(strsv(e.value@));
                                if found {
                                    let i = choose|i: int|
                                        0 <= i < vs@.len() && (#[trigger] vs@[i])@ == txt@;
                                    assert(tv[i] == txt@);
                                } else {
                                    assert forall|i: int|
                                        0 <= i < tv.len() implies #[trigger] tv[i] != txt@ by {
                                        assert(vs@[i]@ == tv[i]);
                                    }
                                }
                            }
                            found
                        },
                        _ => false,
                    }
                },
                FilterMode::MatchPrefix => {
                    if vs.len() >= 2 {
                        let lo = parse_date_strict_x(&vs[0]);
                        let hi = parse_date_strict_x(&vs[1]);
                        match (lo, hi) {
                            (Some(lo), Some(hi)) => {
                                match cell {
                                    Value::Date(dv) => {
                                        let a = if lo.0 != dv.y {
                                            lo.0 < dv.y
                                        } else if lo.1 != dv.m {
                                            lo.1 < dv.m
                                        } else {
                                            lo.2 <= dv.d
                                        };
                                        let b = if dv.y != hi.0 {
                                            dv.y < hi.0
                                        } else if dv.m != hi.1 {
                                            dv.m < hi.1
                                        } else {
                                            dv.d <= hi.2
                                        };
                                        a && b
                                    },
                                    _ => false,
                                }
                            },
                            _ => true,
                        }
                    } else {
                        true
                    }
                },
                _ => true,
            }
        },
        DataKind::Bool => true,
    }
}

/// Whether row `r` passes the whole predicate, executable form.
fn row_pass_x(t: &Table, es: &Vec<FilterItem>, r: usize) -> (res: bool)
    requires
        wf_table(t@),
        r < table_rows(t@),
    ensures
        res == row_pass(t@, es@, r as int),
{
    if t.cols.len() == 0 {
        return false;
    }
    if t.cols[0].cells[r].is_null() {
        proof {
            assert(t@[0].cells[r as int] is Null);
        }
        return false;
    }
    proof {
        assert(!(t@[0].cells[r as int] is Null));
        assert(es@.take(0) =~= Seq::<FilterItem>::empty());
    }
    let mut k: usize = 0;
    while k < es.len()
        invariant
            0 <= k <= es@.len(),
            wf_table(t@),
            r < table_rows(t@),
            entries_pass(t@, es@.take(k as int), r as int),
        decreases es@.len() - k,
    {
        proof {
            assert(es@.take(k + 1).drop_last() =~= es@.take(k as int));
            assert(es@.take(k + 1).last() == es@[k as int]);
        }
        if !entry_pass_x(t, &es[k], r) {
            proof {
                lemma_entries_fail(t@, es@, r as int, k as int);
            }
            return false;
        }
        k = k + 1;
    }
    proof {
        assert(es@.take(es@.len() as int) =~= es@);
    }
    true
}

/// One failing entry fails the whole conjunction.
proof fn lemma_entries_fail(t: Seq<ColV>, es: Seq<FilterItem>, r: int, k: int)
    requires
        0 <= k < es.len(),
        !entry_pass(t, es[k], r),
    ensures
        !entries_pass(t, es, r),
    decreases es.len(),
{
    if es.len() > 0 {
        if k == es.len() - 1 {
        } else {
            lemma_entries_fail(t, es.drop_last(), r, k);
        }
    }
}

/// The filtering stage: keeps exactly the passing rows, in order.
pub fn filter_table(t: &Table, es: &Vec<FilterItem>) -> (r: Table)
    requires
        wf_table(t@),
    ensures
        r@ == select_rows(t@, kept_rows(t@, es@, table_rows(t@))),
        wf_table(r@),
        r@.len() == t@.len(),
        table_rows(r@) == kept_rows(t@, es@, table_rows(t@)).len(),
        bounded_table(t@) ==> bounded_table(r@),
    decreases table_rows(t@),
{
    let rows = t.row_count();
    let mut kept: Vec<usize> = Vec::new();
    let mut r: usize = 0;
    while r < rows
        invariant
            0 <= r <= rows,
            rows == table_rows(t@),
            wf_table(t@),
            Seq::new(kept@.len(), |i: int| kept@[i] as int) == kept_rows(t@, es@, r as int),
            forall|i: int| 0 <= i < kept@.len() ==> #[trigger] kept@[i] < rows,
        decreases rows - r,
    {
        if row_pass_x(t, es, r) {
            kept.push(r);
        }
        r = r + 1;
        proof {
            assert(Seq::new(kept@.len(), |i: int| kept@[i] as int) =~= kept_rows(
                t@,
                es@,
                r as int,
            ));
        }
    }
    let ghost keptv = kept_rows(t@, es@, table_rows(t@));
    proof {
        lemma_kept_rows_bounds(t@, es@, table_rows(t@));
    }
    let mut cols: Vec<Column> = Vec::new();
    let mut i: usize = 0;
    while i < t.cols.len()
        invariant
            0 <= i <= t@.len(),
            t@.len() == t.cols@.len(),
            wf_table(t@),
            cols@.len() == i,
            Seq::new(kept@.len(), |j: int| kept@[j] as int) == keptv,
            forall|j: int| 0 <= j < kept@.len() ==> #[trigger] kept@[j] < table_rows(t@),
            forall|j: int|
                0 <= j < i ==> (#[trigger] cols@[j]@).name == t@[j].name && cols@[j]@.kind
                    == t@[j].kind && cols@[j]@.cells == Seq::new(
                    keptv.len(),
                    |x: int| t@[j].cells[keptv[x]],
                ),
        decreases t@.len() - i,
    {
        let src = &t.cols[i];
        proof {
            assert(wf_col(t@[i as int]) && t@[i as int].cells.len() == table_rows(t@));
        }
        let mut cells: Vec<Value> = Vec::new();
        let mut k: usize = 0;
        while k < kept.len()
            invariant
                0 <= k <= kept@.len(),
                0 <= i < t@.len(),
                src == &t.cols@[i as int],
                t@.len() == t.cols@.len(),
                wf_table(t@),
                t@[i as int].cells.len() == table_rows(t@),
                forall|j: int| 0 <= j < kept@.len() ==> #[trigger] kept@[j] < table_rows(t@),
                Seq::new(kept@.len(), |j: int| kept@[j] as int) == keptv,
                cells@.len() == k,
                forall|j: int|
                    0 <= j < k ==> (#[trigger] cells@[j])@ == t@[i as int].cells[keptv[j]],
            decreases kept@.len() - k,
        {
            proof {
                assert(kept@[k as int] as int == keptv[k as int]);
            }
            cells.push(src.cells[kept[k]].dup());
            k = k + 1;
        }
        cols.push(Column { name: dup_chars(&src.name), kind: src.kind, cells });
        i = i + 1;
        proof {
            assert(cols@[i - 1]@.cells =~= Seq::new(
                keptv.len(),
                |x: int| t@[i - 1].cells[keptv[x]],
            ));
        }
    }
    let out = Table { cols };
    proof {
        assert(out@ =~= select_rows(t@, keptv));
        assert(wf_table(out@)) by {
            assert(forall|a: int, b: int|
                0 <= a < b < out@.len() ==> out@[a].name != out@[b].name);
            assert forall|a: int| 0 <= a < out@.len() implies wf_col(out@[a]) && out@[a].cells.len()
                == table_rows(out@) by {
                assert(forall|x: int|
                    0 <= x < keptv.len() ==> cell_ok(
                        t@[a].kind,
                        #[trigger] t@[a].cells[keptv[x]],
                    ));
            }
        }
        if bounded_table(t@) {
            assert forall|a: int| 0 <= a < out@.len() implies bounded_col(out@[a]) by {
                assert(bounded_col(t@[a]));
                assert(forall|x: int|
                    0 <= x < keptv.len() ==> crate::table::cell_bounded(
                        #[trigger] t@[a].cells[keptv[x]],
                    ));
            }
        }
    }
    out
}

} // verus!
