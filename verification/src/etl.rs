//! The normalization engine: coerces every raw column to its mapped target
//! kind, atomically for the whole table.

use vstd::prelude::*;

use crate::parse::date_extract;
use crate::parse::date_extract_x;
use crate::parse::float_extract;
use crate::parse::float_extract_x;
use crate::parse::int_extract;
use crate::parse::int_extract_x;
use crate::parse::trim;
use crate::parse::trim_x;
use crate::table::ColV;
use crate::table::Column;
use crate::table::Table;
use crate::table::bounded_table;
use crate::table::cell_bounded;
use crate::table::cell_ok;
use crate::table::dup_chars;
use crate::table::chars_eq;
use crate::table::table_rows;
use crate::table::wf_table;
use crate::text::bool_text;
use crate::text::date_text;
use crate::text::float_text;
use crate::text::int_text;
use crate::value::ColumnType;
use crate::value::DataKind;
use crate::value::DateVal;
use crate::value::EngineError;
use crate::value::ErrV;
use crate::value::ValV;
use crate::value::Value;
use crate::value::date_from_days;
use crate::value::date_of_days;
use crate::value::days_from_civil;
use crate::value::days_in_month_x;
use crate::value::epoch_days;
use crate::value::valid_date;

verus! {

/// Signed division truncating toward zero, with a positive divisor.
pub open spec fn trunc_div(a: int, b: int) -> int {
    if a >= 0 {
        a / b
    } else {
        -((-a) / b)
    }
}

/// Floor division of milliseconds into whole days.
pub open spec fn ms_to_days(ms: int) -> int {
    if ms >= 0 {
        ms / 86400000
    } else {
        -(((-ms) + 86399999) / 86400000)
    }
}

/// The kind a column has after coercion to `tgt`: the target's kind, except
/// that a boolean column asked for dates keeps its values unchanged.
pub open spec fn coerce_kind(src: DataKind, tgt: ColumnType) -> DataKind {
    match tgt {
        ColumnType::String => DataKind::Text,
        ColumnType::Integer => DataKind::Int,
        ColumnType::Float => DataKind::Float,
        ColumnType::Date => if src == DataKind::Bool {
            DataKind::Bool
        } else {
            DataKind::Date
        },
    }
}

/// The coercion of one cell. `None` is the fatal case: a value no rule
/// covers. Missing cells stay missing; unreadable text becomes missing for
/// numeric targets but the sentinel date `2000-01-01` for the date target.
pub open spec fn coerce_cell(tgt: ColumnType, v: ValV) -> Option<ValV> {
    match v {
        ValV::Null => Some(ValV::Null),
        ValV::Int(n) => match tgt {
            ColumnType::String => Some(ValV::Text(int_text(n))),
            ColumnType::Integer => Some(ValV::Int(n)),
            ColumnType::Float => Some(ValV::Float(n * 1000000)),
            ColumnType::Date => {
                let days = ms_to_days(n * 1000);
                let p = date_from_days(days);
                Some(ValV::Date(p.0, p.1, p.2))
            },
        },
        ValV::Float(u) => match tgt {
            ColumnType::String => Some(ValV::Text(float_text(u))),
            ColumnType::Integer => {
                let q = trunc_div(u, 1000000);
                if -0x80000000 <= q <= 0x7fffffff {
                    Some(ValV::Int(q))
                } else {
                    Some(ValV::Null)
                }
            },
            ColumnType::Float => Some(ValV::Float(u)),
            ColumnType::Date => {
                let ms = trunc_div(u, 1000);
                if -0x80000000 <= ms <= 0x7fffffff {
                    let p = date_from_days(ms_to_days(ms));
                    Some(ValV::Date(p.0, p.1, p.2))
                } else {
                    Some(ValV::Null)
                }
            },
        },
        ValV::Text(s) => match tgt {
            ColumnType::String => Some(ValV::Text(trim(s))),
            ColumnType::Integer => match int_extract(s) {
                None => Some(ValV::Null),
                Some(n) => Some(ValV::Int(n)),
            },
            ColumnType::Float => match float_extract(s) {
                None => Some(ValV::Null),
                Some(u) => Some(ValV::Float(u)),
            },
            ColumnType::Date => {
                let (y, m, d) = date_extract(s);
                if valid_date(y, m, d) {
                    Some(ValV::Date(y, m, d))
                } else {
                    None
                }
            },
        },
        ValV::Date(y, m, d) => match tgt {
            ColumnType::String => Some(ValV::Text(date_text(y, m, d))),
            ColumnType::Integer => Some(ValV::Int(epoch_days(y, m, d))),
            ColumnType::Float => Some(ValV::Float(epoch_days(y, m, d) * 1000000)),
            ColumnType::Date => Some(ValV::Date(y, m, d)),
        },
        ValV::Bool(b) => match tgt {
            ColumnType::String => Some(ValV::Text(bool_text(b))),
            ColumnType::Integer => Some(
                ValV::Int(
                    if b {
                        1
                    } else {
                        0
                    },
                ),
            ),
            ColumnType::Float => Some(
                ValV::Float(
                    if b {
                        1000000
                    } else {
                        0
                    },
                ),
            ),
            ColumnType::Date => Some(ValV::Bool(b)),
        },
    }
}

/// The coercion of a whole column's cells; fatal as soon as any cell is.
pub open spec fn coerce_cells(tgt: ColumnType, cells: Seq<ValV>) -> Option<Seq<ValV>>
    decreases cells.len(),
{
    if cells.len() == 0 {
        Some(Seq::empty())
    } else {
        match coerce_cells(tgt, cells.drop_last()) {
            None => None,
            Some(pre) => match coerce_cell(tgt, cells.last()) {
                None => None,
                Some(c) => Some(pre.push(c)),
            },
        }
    }
}

/// The first mapping entry for `name`.
pub open spec fn map_lookup_from(
    m: Seq<(Seq<char>, ColumnType)>,
    name: Seq<char>,
    i: int,
) -> Option<ColumnType>
    decreases m.len() - i,
{
    if i < 0 || i >= m.len() {
        None
    } else if m[i].0 == name {
        Some(m[i].1)
    } else {
        map_lookup_from(m, name, i + 1)
    }
}

pub open spec fn map_lookup(m: Seq<(Seq<char>, ColumnType)>, name: Seq<char>) -> Option<
    ColumnType,
> {
    map_lookup_from(m, name, 0)
}

pub open spec fn mapping_view(m: Seq<(Vec<char>, ColumnType)>) -> Seq<(Seq<char>, ColumnType)> {
    Seq::new(m.len(), |i: int| (m[i].0@, m[i].1))
}

/// The whole normalization, column by column in table order: the first
/// column without a mapping entry fails the call with `MissingMapping`; the
/// first fatal cell fails it with `UnsupportedCoercion`; otherwise every
/// column is coerced and keeps its name and position.
pub open spec fn normalize_spec(t: Seq<ColV>, m: Seq<(Seq<char>, ColumnType)>) -> Result<
    Seq<ColV>,
    ErrV,
>
    decreases t.len(),
{
    if t.len() == 0 {
        Ok(Seq::empty())
    } else {
        match normalize_spec(t.drop_last(), m) {
            Err(e) => Err(e),
            Ok(pre) => {
                let c = t.last();
                match map_lookup(m, c.name) {
                    None => Err(ErrV::MissingMapping(c.name)),
                    Some(tgt) => match coerce_cells(tgt, c.cells) {
                        None => Err(ErrV::UnsupportedCoercion),
                        Some(cells) => Ok(
                            pre.push(ColV { name: c.name, kind: coerce_kind(c.kind, tgt), cells }),
                        ),
                    },
                }
            },
        }
    }
}

/// One coerced cell, executable form.
fn coerce_cell_x(tgt: ColumnType, v: &Value) -> (r: Option<Value>)
    requires
        cell_bounded(v@),
        match v@ {
            ValV::Date(y, m, d) => valid_date(y, m, d),
            _ => true,
        },
    ensures
        match r {
            Some(out) => coerce_cell(tgt, v@) == Some(out@) && cell_bounded(out@) && cell_ok(
                coerce_kind(kind_of_cell(v@), tgt),
                out@,
            ),
            None => coerce_cell(tgt, v@) is None,
        },
{
    match v {
        Value::Null => Some(Value::Null),
        Value::Int(n) => match tgt {
            ColumnType::String => {
                let mut out: Vec<char> = Vec::new();
                crate::text::push_int_text(*n, &mut out);
                Some(Value::Text(out))
            },
            ColumnType::Integer => Some(Value::Int(*n)),
            ColumnType::Float => Some(Value::Float(*n * 1000000)),
            ColumnType::Date => {
                let ms: i128 = *n * 1000;
                let days = ms_to_days_x(ms);
                Some(Value::Date(date_of_days(days)))
            },
        },
        Value::Float(u) => match tgt {
            ColumnType::String => {
                let mut out: Vec<char> = Vec::new();
                crate::text::push_float_text(*u, &mut out);
                Some(Value::Text(out))
            },
            ColumnType::Integer => {
                let q = trunc_div_x(*u, 1000000);
                if -0x80000000 <= q && q <= 0x7fffffff {
                    Some(Value::Int(q))
                } else {
                    Some(Value::Null)
                }
            },
            ColumnType::Float => Some(Value::Float(*u)),
            ColumnType::Date => {
                let ms = trunc_div_x(*u, 1000);
                if -0x80000000 <= ms && ms <= 0x7fffffff {
                    let days = ms_to_days_x(ms);
                    Some(Value::Date(date_of_days(days)))
                } else {
                    Some(Value::Null)
                }
            },
        },
        Value::Text(s) => match tgt {
            ColumnType::String => Some(Value::Text(trim_x(s))),
            ColumnType::Integer => match int_extract_x(s) {
                None => Some(Value::Null),
                Some(n) => Some(Value::Int(n as i128)),
            },
            ColumnType::Float => match float_extract_x(s) {
                None => Some(Value::Null),
                Some(u) => Some(Value::Float(u)),
            },
            ColumnType::Date => {
                let (y, m, d) = date_extract_x(s);
                if 1 <= m && m <= 12 && 1 <= d && d <= days_in_month_x(y, m) {
                    Some(Value::Date(DateVal { y, m, d }))
                } else {
                    None
                }
            },
        },
        Value::Date(dv) => match tgt {
            ColumnType::String => {
                let mut out: Vec<char> = Vec::new();
                crate::text::push_date_text(*dv, &mut out);
                Some(Value::Text(out))
            },
            ColumnType::Integer => Some(Value::Int(days_from_civil(*dv) as i128)),
            ColumnType::Float => Some(Value::Float((days_from_civil(*dv) as i128) * 1000000)),
            ColumnType::Date => Some(Value::Date(*dv)),
        },
        Value::Bool(b) => match tgt {
            ColumnType::String => {
                let mut out: Vec<char> = Vec::new();
                if *b {
                    out.push('t');
                    out.push('r');
                    out.push('u');
                    out.push('e');
                } else {
                    out.push('f');
                    out.push('a');
                    out.push('l');
                    out.push('s');
                    out.push('e');
                }
                proof {
                    assert(out@ =~= bool_text(*b));
                }
                Some(Value::Text(out))
            },
            ColumnType::Integer => Some(
                Value::Int(
                    if *b {
                        1
                    } else {
                        0
                    },
                ),
            ),
            ColumnType::Float => Some(
                Value::Float(
                    if *b {
                        1000000
                    } else {
                        0
                    },
                ),
            ),
            ColumnType::Date => Some(Value::Bool(*b)),
        },
    }
}

/// The kind a lone cell exhibits; missing cells act as text.
pub open spec fn kind_of_cell(v: ValV) -> DataKind {
    match v {
        ValV::Null => DataKind::Text,
        ValV::Text(_) => DataKind::Text,
        ValV::Int(_) => DataKind::Int,
        ValV::Float(_) => DataKind::Float,
        ValV::Date(_, _, _) => DataKind::Date,
        ValV::Bool(_) => DataKind::Bool,
    }
}

pub fn trunc_div_x(a: i128, b: i128) -> (r: i128)
    requires
        b > 0,
        a > i128::MIN,
    ensures
        r == trunc_div(a as int, b as int),
{
    if a >= 0 {
        ((a as u128) / (b as u128)) as i128
    } else {
        proof {
            assert((-(a as int)) / (b as int) <= -(a as int)) by {
                vstd::arithmetic::div_mod::lemma_div_basics_5(-(a as int), b as int);
            }
        }
        -((((-a) as u128) / (b as u128)) as i128)
    }
}

/// An error reached at any column prefix decides the whole call.
proof fn lemma_norm_err_mono(t: Seq<ColV>, m: Seq<(Seq<char>, ColumnType)>, i: int)
    requires
        0 <= i <= t.len(),
        normalize_spec(t.take(i), m) is Err,
    ensures
        normalize_spec(t, m) == normalize_spec(t.take(i), m),
    decreases t.len() - i,
{
    if i < t.len() {
        assert(t.take(i + 1).drop_last() =~= t.take(i));
        assert(t.take(i + 1).last() == t[i]);
        lemma_norm_err_mono(t, m, i + 1);
    } else {
        assert(t.take(i) =~= t);
    }
}

/// A fatal cell in any prefix decides the whole column.
proof fn lemma_coerce_err_mono(tgt: ColumnType, cells: Seq<ValV>, k: int)
    requires
        0 <= k <= cells.len(),
        coerce_cells(tgt, cells.take(k)) is None,
    ensures
        coerce_cells(tgt, cells) is None,
    decreases cells.len() - k,
{
    if k < cells.len() {
        assert(cells.take(k + 1).drop_last() =~= cells.take(k));
        lemma_coerce_err_mono(tgt, cells, k + 1);
    } else {
        assert(cells.take(k) =~= cells);
    }
}

/// The first mapping entry for `name`, executable form.
pub fn lookup_target(m: &Vec<(Vec<char>, ColumnType)>, name: &Vec<char>) -> (r: Option<
    ColumnType,
>)
    ensures
        r == map_lookup(mapping_view(m@), name@),
{
    let mut i: usize = 0;
    while i < m.len()
        invariant
            0 <= i <= m@.len(),
            map_lookup_from(mapping_view(m@), name@, 0) == map_lookup_from(
                mapping_view(m@),
                name@,
                i as int,
            ),
        decreases m@.len() - i,
    {
        if chars_eq(&m[i].0, name) {
            return Some(m[i].1);
        }
        i = i + 1;
    }
    None
}

/// Normalizes every column of `t` under `m`, atomically: any column
/// without a mapping entry or with a fatal cell fails the whole call and
/// nothing is produced.
pub fn normalize(t: &Table, m: &Vec<(Vec<char>, ColumnType)>) -> (r: Result<Table, EngineError>)
    requires
        wf_table(t@),
        bounded_table(t@),
    ensures
        match r {
            Ok(out) => normalize_spec(t@, mapping_view(m@)) == Ok::<Seq<ColV>, ErrV>(out@)
                && wf_table(out@) && bounded_table(out@) && out@.len() == t@.len() && table_rows(
                out@,
            ) == table_rows(t@),
            Err(e) => normalize_spec(t@, mapping_view(m@)) == Err::<Seq<ColV>, ErrV>(e@),
        },
{
    let ghost mv = mapping_view(m@);
    let mut cols: Vec<Column> = Vec::new();
    let mut i: usize = 0;
    proof {
        assert(t@.take(0) =~= Seq::<ColV>::empty());
        assert(crate::table::colseq(cols@) =~= Seq::<ColV>::empty());
    }
    while i < t.cols.len()
        invariant
            0 <= i <= t@.len(),
            wf_table(t@),
            bounded_table(t@),
            mv == mapping_view(m@),
            t@.len() == t.cols@.len(),
            cols@.len() == i,
            normalize_spec(t@.take(i as int), mv) == Ok::<Seq<ColV>, ErrV>(
                crate::table::colseq(cols@),
            ),
            forall|j: int|
                0 <= j < i ==> (#[trigger] cols@[j]@).cells.len() == t@[j].cells.len()
                    && crate::table::wf_col(cols@[j]@) && crate::table::bounded_col(cols@[j]@),
        decreases t@.len() - i,
    {
        let c = &t.cols[i];
        proof {
            assert(crate::table::wf_col(t@[i as int]) && t@[i as int].cells.len() == table_rows(
                t@,
            ));
            assert(crate::table::bounded_col(t@[i as int]));
        }
        let tgt = match lookup_target(m, &c.name) {
            None => {
                proof {
                    assert(t@.take(i + 1).drop_last() =~= t@.take(i as int));
                    assert(t@.take(i + 1).last() == t@[i as int]);
                    assert(normalize_spec(t@.take(i + 1), mv) == Err::<Seq<ColV>, ErrV>(
                        ErrV::MissingMapping(t@[i as int].name),
                    ));
                    lemma_norm_err_mono(t@, mv, i + 1);
                }
                return Err(EngineError::MissingMapping(dup_chars(&c.name)));
            },
            Some(tgt) => tgt,
        };
        proof {
            assert(c.name@ == t@[i as int].name);
            assert(map_lookup(mv, t@[i as int].name) == Some(tgt));
        }
        let mut cells: Vec<Value> = Vec::new();
        let mut k: usize = 0;
        proof {
            assert(t@[i as int].cells.take(0) =~= Seq::<ValV>::empty());
        }
        while k < c.cells.len()
            invariant
                0 <= k <= c.cells@.len(),
                c == &t.cols[i as int],
                0 <= i < t@.len(),
                t@.len() == t.cols@.len(),
                wf_table(t@),
                bounded_table(t@),
                mv == mapping_view(m@),
                t@[i as int].cells.len() == c.cells@.len(),
                cells@.len() == k,
                normalize_spec(t@.take(i as int), mv) == Ok::<Seq<ColV>, ErrV>(
                    crate::table::colseq(cols@),
                ),
                map_lookup(mv, t@[i as int].name) == Some(tgt),
                coerce_cells(tgt, t@[i as int].cells.take(k as int)) == Some(
                    crate::table::cellseq(cells@),
                ),
                forall|j: int|
                    0 <= j < k ==> crate::table::cell_ok(
                        coerce_kind(t@[i as int].kind, tgt),
                        (#[trigger] cells@[j])@,
                    ) && cell_bounded(cells@[j]@),
            decreases c.cells@.len() - k,
        {
            let v = &c.cells[k];
            proof {
                assert(t@[i as int].cells[k as int] == v@);
                assert(cell_ok(t@[i as int].kind, t@[i as int].cells[k as int]));
                assert(cell_bounded(t@[i as int].cells[k as int]));
            }
            match coerce_cell_x(tgt, v) {
                None => {
                    proof {
                        let cs = t@[i as int].cells;
                        assert(cs.take(k + 1).drop_last() =~= cs.take(k as int));
                        assert(cs.take(k + 1).last() == cs[k as int]);
                        assert(coerce_cells(tgt, cs.take(k + 1)) is None);
                        lemma_coerce_err_mono(tgt, cs, k + 1);
                        assert(t@.take(i + 1).drop_last() =~= t@.take(i as int));
                        assert(t@.take(i + 1).last() == t@[i as int]);
                        assert(normalize_spec(t@.take(i + 1), mv) == Err::<Seq<ColV>, ErrV>(
                            ErrV::UnsupportedCoercion,
                        ));
                        lemma_norm_err_mono(t@, mv, i + 1);
                    }
                    return Err(EngineError::UnsupportedCoercion);
                },
                Some(out) => {
                    proof {
                        let cs = t@[i as int].cells;
                        assert(cs.take(k + 1).drop_last() =~= cs.take(k as int));
                        assert(cs.take(k + 1).last() == cs[k as int]);
                        if !(v@ is Null) {
                            assert(kind_of_cell(v@) == t@[i as int].kind);
                        }
                    }
                    cells.push(out);
                    k = k + 1;
                    proof {
                        assert(crate::table::cellseq(cells@) =~= crate::table::cellseq(
                            cells@.drop_last(),
                        ).push(cells@.last()@));
                        assert(crate::table::cellseq(cells@.drop_last()) =~= crate::table::cellseq(
                            cells@,
                        ).drop_last());
                        assert(coerce_cells(tgt, t@[i as int].cells.take(k as int)) == Some(
                            crate::table::cellseq(cells@),
                        ));
                    }
                },
            }
        }
        proof {
            assert(t@[i as int].cells.take(c.cells@.len() as int) =~= t@[i as int].cells);
            assert(coerce_cells(tgt, t@[i as int].cells) == Some(crate::table::cellseq(cells@)));
        }
        let ghost cellsv = crate::table::cellseq(cells@);
        let ghost oldcols = cols@;
        let newc = Column { name: dup_chars(&c.name), kind: coerce_kind_x(c.kind, tgt), cells };
        proof {
            assert(newc@ == (ColV {
                name: t@[i as int].name,
                kind: coerce_kind(t@[i as int].kind, tgt),
                cells: cellsv,
            }));
        }
        cols.push(newc);
        i = i + 1;
        proof {
            assert(t@.take(i as int).drop_last() =~= t@.take(i - 1));
            assert(t@.take(i as int).last() == t@[i - 1]);
            assert(cols@.drop_last() =~= oldcols);
            assert(crate::table::colseq(oldcols).push(newc@) =~= crate::table::colseq(cols@));
            assert(normalize_spec(t@.take(i as int), mv) == Ok::<Seq<ColV>, ErrV>(
                crate::table::colseq(cols@),
            ));
        }
    }
    proof {
        assert(t@.take(t@.len() as int) =~= t@);
    }
    let out = Table { cols };
    proof {
        assert(normalize_spec(t@, mv) == Ok::<Seq<ColV>, ErrV>(out@));
        assert(out@.len() == t@.len());
        if t@.len() > 0 {
            assert(out@[0].cells.len() == t@[0].cells.len());
        }
        assert(forall|a: int, b: int| 0 <= a < b < out@.len() ==> out@[a].name != out@[b].name)
            by {
            assert forall|a: int, b: int| 0 <= a < b < out@.len() implies out@[a].name
                != out@[b].name by {
                assert(out@[a].name == t@[a].name && out@[b].name == t@[b].name) by {
                    lemma_norm_names(t@, mv, out@);
                }
            }
        }
        assert(wf_table(out@));
        assert(bounded_table(out@));
    }
    Ok(out)
}

/// Normalization keeps every column's name and position.
proof fn lemma_norm_names(t: Seq<ColV>, m: Seq<(Seq<char>, ColumnType)>, out: Seq<ColV>)
    requires
        normalize_spec(t, m) == Ok::<Seq<ColV>, ErrV>(out),
    ensures
        out.len() == t.len(),
        forall|i: int| 0 <= i < t.len() ==> (#[trigger] out[i]).name == t[i].name,
    decreases t.len(),
{
    if t.len() > 0 {
        let pre = normalize_spec(t.drop_last(), m);
        lemma_norm_names(t.drop_last(), m, pre->Ok_0);
    }
}

/// The kind of a coerced column, executable form.
pub fn coerce_kind_x(src: DataKind, tgt: ColumnType) -> (r: DataKind)
    ensures
        r == coerce_kind(src, tgt),
{
    match tgt {
        ColumnType::String => DataKind::Text,
        ColumnType::Integer => DataKind::Int,
        ColumnType::Float => DataKind::Float,
        ColumnType::Date => match src {
            DataKind::Bool => DataKind::Bool,
            _ => DataKind::Date,
        },
    }
}

fn ms_to_days_x(ms: i128) -> (r: i64)
    requires
        -2147483648000 <= ms <= 2147483648000,
    ensures
        r == ms_to_days(ms as int),
        -100000 <= r <= 100000,
{
    if ms >= 0 {
        (((ms as u128) / 86400000) as i128) as i64
    } else {
        -(((((-ms) as u128) + 86399999) / 86400000) as i64)
    }
}

} // verus!
