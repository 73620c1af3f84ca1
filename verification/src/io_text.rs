//! The textual forms at the session's edge: delimited text with a header
//! row in and out, and the row-oriented JSON encoding of a table.

use vstd::prelude::*;

use crate::parse::strict_float;
use crate::parse::strict_float_x;
use crate::parse::strict_int;
use crate::parse::strict_int_x;
use crate::table::ColV;
use crate::table::Column;
use crate::table::Table;
use crate::table::bounded_table;
use crate::table::cellseq;
use crate::table::chars_eq;
use crate::table::dup_chars;
use crate::table::table_rows;
use crate::table::wf_table;
use crate::text::bool_text;
use crate::text::date_text;
use crate::text::float_text;
use crate::text::int_text;
use crate::text::val_text;
use crate::value::DataKind;
use crate::value::EngineError;
use crate::value::ErrV;
use crate::value::ValV;
use crate::value::Value;

verus! {

/// The first `sep` at or after `i`.
pub open spec fn char_from(s: Seq<char>, sep: char, i: int) -> Option<int>
    decreases s.len() - i,
{
    if i < 0 || i >= s.len() {
        None
    } else if s[i] == sep {
        Some(i)
    } else {
        char_from(s, sep, i + 1)
    }
}

/// `s` split on `sep`; n separators give n+1 pieces.
pub open spec fn split_seq(s: Seq<char>, sep: char) -> Seq<Seq<char>>
    decreases s.len(),
{
    match char_from(s, sep, 0) {
        None => seq![s],
        Some(p) => if 0 <= p < s.len() {
            seq![s.take(p)] + split_seq(s.skip(p + 1), sep)
        } else {
            seq![s]
        },
    }
}

proof fn lemma_char_from_bounds(s: Seq<char>, sep: char, i: int)
    requires
        0 <= i <= s.len(),
    ensures
        match char_from(s, sep, i) {
            Some(p) => i <= p < s.len() && s[p] == sep,
            None => true,
        },
    decreases s.len() - i,
{
    if i < s.len() && s[i] != sep {
        lemma_char_from_bounds(s, sep, i + 1);
    }
}

/// Splits the characters from `from` on `sep`, executable form.
fn split_from(s: &Vec<char>, sep: char, from: usize) -> (r: Vec<Vec<char>>)
    requires
        from <= s@.len(),
    ensures
        Seq::new(r@.len(), |i: int| r@[i]@) == split_seq(s@.skip(from as int), sep),
    decreases s@.len() - from,
{
    proof {
        lemma_char_from_bounds(s@.skip(from as int), sep, 0);
    }
    let mut p: usize = from;
    while p < s.len() && s[p] != sep
        invariant
            from <= p <= s@.len(),
            char_from(s@.skip(from as int), sep, 0) == char_from(
                s@.skip(from as int),
                sep,
                p - from,
            ),
            forall|k: int| from <= k < p ==> s@[k] != sep,
        decreases s@.len() - p,
    {
        proof {
            assert(s@.skip(from as int)[p - from] == s@[p as int]);
        }
        p = p + 1;
    }
    let mut field: Vec<char> = Vec::new();
    let mut k: usize = from;
    while k < p
        invariant
            from <= k <= p <= s@.len(),
            field@ == s@.subrange(from as int, k as int),
        decreases p - k,
    {
        field.push(s[k]);
        k = k + 1;
        proof {
            assert(field@ =~= s@.subrange(from as int, k as int));
        }
    }
    if p == s.len() {
        proof {
            assert(char_from(s@.skip(from as int), sep, p - from) is None);
            assert(field@ =~= s@.skip(from as int));
        }
        let mut out: Vec<Vec<char>> = Vec::new();
        out.push(field);
        proof {
            assert(Seq::new(out@.len(), |i: int| out@[i]@) =~= seq![s@.skip(from as int)]);
        }
        out
    } else {
        proof {
            assert(s@.skip(from as int)[p - from] == s@[p as int]);
            assert(char_from(s@.skip(from as int), sep, p - from) == Some(p - from));
            assert(field@ =~= s@.skip(from as int).take(p - from));
        }
        let rest = split_from(s, sep, p + 1);
        proof {
            assert(s@.skip(from as int).skip(p - from + 1) =~= s@.skip(p + 1));
        }
        let mut out: Vec<Vec<char>> = Vec::new();
        out.push(field);
        let mut k: usize = 0;
        while k < rest.len()
            invariant
                0 <= k <= rest@.len(),
                out@.len() == k + 1,
                forall|i: int| 0 <= i < k + 1 ==> (#[trigger] out@[i])@ == (seq![
                    s@.skip(from as int).take(p - from),
                ] + Seq::new(rest@.len(), |i: int| rest@[i]@))[i] || i > k,
                out@[0]@ == s@.skip(from as int).take(p - from),
                forall|i: int| 1 <= i < k + 1 ==> (#[trigger] out@[i])@ == rest@[i - 1]@,
            decreases rest@.len() - k,
        {
            out.push(dup_chars(&rest[k]));
            k = k + 1;
        }
        proof {
            assert(Seq::new(out@.len(), |i: int| out@[i]@) =~= seq![
                s@.skip(from as int).take(p - from),
            ] + Seq::new(rest@.len(), |i: int| rest@[i]@));
        }
        out
    }
}

/// Splits a whole character vector on `sep`.
pub fn split_x(s: &Vec<char>, sep: char) -> (r: Vec<Vec<char>>)
    ensures
        Seq::new(r@.len(), |i: int| r@[i]@) == split_seq(s@, sep),
{
    let r = split_from(s, sep, 0);
    proof {
        assert(s@.skip(0) =~= s@);
    }
    r
}

/// One trailing carriage return removed.
pub open spec fn strip_cr(s: Seq<char>) -> Seq<char> {
    if s.len() > 0 && s.last() == '\r' {
        s.drop_last()
    } else {
        s
    }
}

/// The records of delimited text: one per line, a trailing carriage return
/// tolerated, a final empty line ignored.
pub open spec fn csv_lines(text: Seq<char>) -> Seq<Seq<char>> {
    let raw = split_seq(text, '\n');
    let ls = Seq::new(raw.len(), |i: int| strip_cr(raw[i]));
    if ls.len() > 0 && ls.last().len() == 0 {
        ls.drop_last()
    } else {
        ls
    }
}

pub open spec fn bool_of_text(s: Seq<char>) -> Option<bool> {
    if s == bool_text(true) {
        Some(true)
    } else if s == bool_text(false) {
        Some(false)
    } else {
        None
    }
}

/// The kind a loaded column gets: integer if every present field is a
/// strict integer, else float, else boolean, else text; a column with no
/// present field is text.
pub open spec fn infer_kind(cells: Seq<Seq<char>>) -> DataKind {
    if exists|i: int| 0 <= i < cells.len() && (#[trigger] cells[i]).len() > 0 {
        if forall|i: int|
            0 <= i < cells.len() ==> (#[trigger] cells[i]).len() == 0 || strict_int(
                cells[i],
            ) is Some {
            DataKind::Int
        } else if forall|i: int|
            0 <= i < cells.len() ==> (#[trigger] cells[i]).len() == 0 || strict_float(
                cells[i],
            ) is Some {
            DataKind::Float
        } else if forall|i: int|
            0 <= i < cells.len() ==> (#[trigger] cells[i]).len() == 0 || bool_of_text(
                cells[i],
            ) is Some {
            DataKind::Bool
        } else {
            DataKind::Text
        }
    } else {
        DataKind::Text
    }
}

/// The typed value of a loaded field: empty fields are missing.
pub open spec fn cell_of(k: DataKind, f: Seq<char>) -> ValV {
    if f.len() == 0 {
        ValV::Null
    } else {
        match k {
            DataKind::Int => match strict_int(f) {
                Some(v) => ValV::Int(v),
                None => ValV::Null,
            },
            DataKind::Float => match strict_float(f) {
                Some(v) => ValV::Float(v),
                None => ValV::Null,
            },
            DataKind::Bool => match bool_of_text(f) {
                Some(b) => ValV::Bool(b),
                None => ValV::Null,
            },
            _ => ValV::Text(f),
        }
    }
}

/// The fields of record `r` (the line after the header).
pub open spec fn csv_fields(text: Seq<char>, r: int) -> Seq<Seq<char>> {
    split_seq(csv_lines(text)[r + 1], ',')
}

/// The table a delimited text loads to: header names become column names,
/// each column's kind is inferred from its fields. Empty input, a repeated
/// header name or a record of the wrong width fails the load.
pub open spec fn csv_table(text: Seq<char>) -> Result<Seq<ColV>, ErrV> {
    let lines = csv_lines(text);
    if lines.len() == 0 {
        Err(ErrV::BadInput)
    } else {
        let hdr = split_seq(lines[0], ',');
        if exists|a: int, b: int| 0 <= a < b < hdr.len() && hdr[a] == hdr[b] {
            Err(ErrV::BadInput)
        } else if exists|r: int|
            0 <= r < lines.len() - 1 && (#[trigger] csv_fields(text, r)).len() != hdr.len() {
            Err(ErrV::BadInput)
        } else {
            Ok(
                Seq::new(
                    hdr.len(),
                    |c: int|
                        {
                            let fs = Seq::new(
                                (lines.len() - 1) as nat,
                                |r: int| csv_fields(text, r)[c],
                            );
                            ColV {
                                name: hdr[c],
                                kind: infer_kind(fs),
                                cells: Seq::new(fs.len(), |r: int| cell_of(infer_kind(fs), fs[r])),
                            }
                        },
                ),
            )
        }
    }
}

fn bool_of_text_x(s: &Vec<char>) -> (r: Option<bool>)
    ensures
        r == bool_of_text(s@),
{
    let mut t: Vec<char> = Vec::new();
    t.push('t');
    t.push('r');
    t.push('u');
    t.push('e');
    proof {
        assert(t@ =~= bool_text(true));
    }
    if chars_eq(s, &t) {
        return Some(true);
    }
    let mut f: Vec<char> = Vec::new();
    f.push('f');
    f.push('a');
    f.push('l');
    f.push('s');
    f.push('e');
    proof {
        assert(f@ =~= bool_text(false));
    }
    if chars_eq(s, &f) {
        return Some(false);
    }
    None
}

/// Infers the kind of one loaded column.
fn infer_kind_x(cells: &Vec<Vec<char>>) -> (k: DataKind)
    ensures
        k == infer_kind(Seq::new(cells@.len(), |i: int| cells@[i]@)),
{
    let ghost cv = Seq::new(cells@.len(), |i: int| cells@[i]@);
    let mut any = false;
    let mut all_int = true;
    let mut all_float = true;
    let mut all_bool = true;
    let mut i: usize = 0;
    while i < cells.len()
        invariant
            0 <= i <= cells@.len(),
            cv == Seq::new(cells@.len(), |i: int| cells@[i]@),
            any == exists|x: int| 0 <= x < i && (#[trigger] cv[x]).len() > 0,
            all_int == forall|x: int|
                0 <= x < i ==> (#[trigger] cv[x]).len() == 0 || (strict_int(cv[x]) is Some),
            all_float == forall|x: int|
                0 <= x < i ==> (#[trigger] cv[x]).len() == 0 || (strict_float(cv[x]) is Some),
            all_bool == forall|x: int|
                0 <= x < i ==> (#[trigger] cv[x]).len() == 0 || (bool_of_text(cv[x]) is Some),
        decreases cells@.len() - i,
    {
        let f = &cells[i];
        proof {
            assert(cv[i as int] == f@);
        }
        if f.len() > 0 {
            any = true;
            if strict_int_x(f).is_none() {
                all_int = false;
            }
            if strict_float_x(f).is_none() {
                all_float = false;
            }
            if bool_of_text_x(f).is_none() {
                all_bool = false;
            }
        }
        i = i + 1;
    }
    if !any {
        DataKind::Text
    } else if all_int {
        DataKind::Int
    } else if all_float {
        DataKind::Float
    } else if all_bool {
        DataKind::Bool
    } else {
        DataKind::Text
    }
}

/// The typed value of a loaded field, executable form.
fn cell_of_x(k: DataKind, f: &Vec<char>) -> (v: Value)
    requires
        k != DataKind::Date,
    ensures
        v@ == cell_of(k, f@),
        crate::table::cell_ok(k, v@),
        crate::table::cell_bounded(v@),
{
    if f.len() == 0 {
        return Value::Null;
    }
    match k {
        DataKind::Int => match strict_int_x(f) {
            Some(v) => Value::Int(v as i128),
            None => Value::Null,
        },
        DataKind::Float => match strict_float_x(f) {
            Some(v) => Value::Float(v),
            None => Value::Null,
        },
        DataKind::Bool => match bool_of_text_x(f) {
            Some(b) => Value::Bool(b),
            None => Value::Null,
        },
        _ => Value::Text(dup_chars(f)),
    }
}

/// Loads delimited text with a header row into a typed table.
pub fn parse_delimited(text: &Vec<char>) -> (res: Result<Table, EngineError>)
    ensures
        match res {
            Ok(t) => csv_table(text@) == Ok::<Seq<ColV>, ErrV>(t@) && wf_table(t@)
                && bounded_table(t@),
            Err(e) => csv_table(text@) == Err::<Seq<ColV>, ErrV>(e@),
        },
{
    let raw = split_x(text, '\n');
    let mut lines: Vec<Vec<char>> = Vec::new();
    let mut i: usize = 0;
    let ghost rawv = split_seq(text@, '\n');
    while i < raw.len()
        invariant
            0 <= i <= raw@.len(),
            rawv == split_seq(text@, '\n'),
            Seq::new(raw@.len(), |x: int| raw@[x]@) == rawv,
            lines@.len() == i,
            forall|x: int| 0 <= x < i ==> (#[trigger] lines@[x])@ == strip_cr(rawv[x]),
        decreases raw@.len() - i,
    {
        let mut l = dup_chars(&raw[i]);
        if l.len() > 0 && l[l.len() - 1] == '\r' {
            let ghost pre = l@;
            l.pop();
            proof {
                assert(l@ =~= pre.drop_last());
            }
        }
        lines.push(l);
        i = i + 1;
    }
    if lines.len() > 0 && lines[lines.len() - 1].len() == 0 {
        lines.pop();
        proof {
            assert(Seq::new(lines@.len(), |x: int| lines@[x]@) =~= csv_lines(text@));
        }
    } else {
        proof {
            assert(Seq::new(lines@.len(), |x: int| lines@[x]@) =~= csv_lines(text@));
        }
    }
    let ghost lv = csv_lines(text@);
    if lines.len() == 0 {
        return Err(EngineError::BadInput);
    }
    let hdr = split_x(&lines[0], ',');
    let ghost hv = split_seq(lv[0], ',');
    proof {
        assert(Seq::new(hdr@.len(), |x: int| hdr@[x]@) == hv);
    }
    let mut a: usize = 0;
    while a < hdr.len()
        invariant
            0 <= a <= hdr@.len(),
            lv == csv_lines(text@),
            lv.len() >= 1,
            hv == split_seq(lv[0], ','),
            Seq::new(hdr@.len(), |x: int| hdr@[x]@) == hv,
            forall|x: int, y: int| 0 <= x < a && x < y < hv.len() ==> hv[x] != hv[y],
        decreases hdr@.len() - a,
    {
        let mut b: usize = a + 1;
        while b < hdr.len()
            invariant
                0 <= a < b <= hdr@.len(),
                lv == csv_lines(text@),
                lv.len() >= 1,
                hv == split_seq(lv[0], ','),
                Seq::new(hdr@.len(), |x: int| hdr@[x]@) == hv,
                forall|y: int| a < y < b ==> hv[a as int] != hv[y],
            decreases hdr@.len() - b,
        {
            if chars_eq(&hdr[a], &hdr[b]) {
                proof {
                    assert(hv[a as int] == hv[b as int]);
                }
                return Err(EngineError::BadInput);
            }
            b = b + 1;
        }
        a = a + 1;
    }
    let nrows = lines.len() - 1;
    let mut rows: Vec<Vec<Vec<char>>> = Vec::new();
    let mut r: usize = 0;
    while r < nrows
        invariant
            0 <= r <= nrows,
            nrows == lv.len() - 1,
            lv == csv_lines(text@),
            lv.len() >= 1,
            hv == split_seq(lv[0], ','),
            Seq::new(lines@.len(), |x: int| lines@[x]@) == lv,
            lines@.len() == lv.len(),
            Seq::new(hdr@.len(), |x: int| hdr@[x]@) == hv,
            rows@.len() == r,
            forall|x: int|
                0 <= x < r ==> (#[trigger] rows@[x])@.len() == hv.len() && Seq::new(
                    rows@[x]@.len(),
                    |y: int| rows@[x]@[y]@,
                ) == csv_fields(text@, x),
        decreases nrows - r,
    {
        let fs = split_x(&lines[r + 1], ',');
        proof {
            assert(lines@[r + 1]@ == lv[r + 1]);
            assert(Seq::new(fs@.len(), |y: int| fs@[y]@) == csv_fields(text@, r as int));
        }
        if fs.len() != hdr.len() {
            return Err(EngineError::BadInput);
        }
        rows.push(fs);
        r = r + 1;
    }
    let mut cols: Vec<Column> = Vec::new();
    let mut c: usize = 0;
    while c < hdr.len()
        invariant
            0 <= c <= hdr@.len(),
            nrows == lv.len() - 1,
            lv == csv_lines(text@),
            lv.len() >= 1,
            Seq::new(hdr@.len(), |x: int| hdr@[x]@) == hv,
            hv == split_seq(lv[0], ','),
            rows@.len() == nrows,
            forall|x: int|
                0 <= x < nrows ==> (#[trigger] rows@[x])@.len() == hv.len() && Seq::new(
                    rows@[x]@.len(),
                    |y: int| rows@[x]@[y]@,
                ) == csv_fields(text@, x),
            cols@.len() == c,
            forall|x: int|
                0 <= x < c ==> ({
                    let fs = Seq::new(nrows as nat, |r: int| csv_fields(text@, r)[x]);
                    (#[trigger] cols@[x]@).name == hv[x] && cols@[x]@.kind == infer_kind(fs)
                        && cols@[x]@.cells == Seq::new(
                        fs.len(),
                        |r: int| cell_of(infer_kind(fs), fs[r]),
                    ) && crate::table::wf_col(cols@[x]@) && crate::table::bounded_col(cols@[x]@)
                        && cols@[x]@.cells.len() == nrows
                }),
        decreases hdr@.len() - c,
    {
        let ghost fsv = Seq::new(nrows as nat, |r: int| csv_fields(text@, r)[c as int]);
        let mut fields: Vec<Vec<char>> = Vec::new();
        let mut r: usize = 0;
        while r < nrows
            invariant
                0 <= r <= nrows,
                0 <= c < hdr@.len(),
                hv.len() == hdr@.len(),
                fsv == Seq::new(nrows as nat, |r: int| csv_fields(text@, r)[c as int]),
                rows@.len() == nrows,
                forall|x: int|
                    0 <= x < nrows ==> (#[trigger] rows@[x])@.len() == hv.len() && Seq::new(
                        rows@[x]@.len(),
                        |y: int| rows@[x]@[y]@,
                    ) == csv_fields(text@, x),
                fields@.len() == r,
                forall|x: int| 0 <= x < r ==> (#[trigger] fields@[x])@ == fsv[x],
            decreases nrows - r,
        {
            proof {
                assert(rows@[r as int]@[c as int]@ == csv_fields(text@, r as int)[c as int]);
            }
            fields.push(dup_chars(&rows[r][c]));
            r = r + 1;
        }
        proof {
            assert(Seq::new(fields@.len(), |i: int| fields@[i]@) =~= fsv);
        }
        let kind = infer_kind_x(&fields);
        let mut cells: Vec<Value> = Vec::new();
        let mut r: usize = 0;
        while r < nrows
            invariant
                0 <= r <= nrows,
                kind == infer_kind(fsv),
                fields@.len() == nrows,
                forall|x: int| 0 <= x < nrows ==> (#[trigger] fields@[x])@ == fsv[x],
                cells@.len() == r,
                forall|x: int|
                    0 <= x < r ==> (#[trigger] cells@[x])@ == cell_of(kind, fsv[x])
                        && crate::table::cell_ok(kind, cells@[x]@) && crate::table::cell_bounded(
                        cells@[x]@,
                    ),
            decreases nrows - r,
        {
            cells.push(cell_of_x(kind, &fields[r]));
            r = r + 1;
        }
        cols.push(Column { name: dup_chars(&hdr[c]), kind, cells });
        c = c + 1;
        proof {
            assert(cols@[c - 1]@.cells =~= Seq::new(
                fsv.len(),
                |r: int| cell_of(infer_kind(fsv), fsv[r]),
            ));
        }
    }
    let out = Table { cols };
    proof {
        let lines2 = csv_lines(text@);
        assert(lines2.len() >= 1);
        assert(!(exists|a: int, b: int| 0 <= a < b < hv.len() && hv[a] == hv[b]));
        assert forall|r: int| 0 <= r < lines2.len() - 1 implies (#[trigger] csv_fields(
            text@,
            r,
        )).len() == hv.len() by {
            assert(rows@[r]@.len() == hv.len());
            assert(Seq::new(rows@[r]@.len(), |y: int| rows@[r]@[y]@) == csv_fields(text@, r));
        }
        assert(!(exists|r: int|
            0 <= r < lines2.len() - 1 && (#[trigger] csv_fields(text@, r)).len() != hv.len()));
        assert(csv_table(text@) is Ok);
        let target = csv_table(text@)->Ok_0;
        assert(target.len() == hv.len() && out@.len() == hv.len());
        assert forall|x: int| 0 <= x < out@.len() implies out@[x] == target[x] by {
            let fs = Seq::new(nrows as nat, |r: int| csv_fields(text@, r)[x]);
            let fs2 = Seq::new((lines2.len() - 1) as nat, |r: int| csv_fields(text@, r)[x]);
            assert(fs =~= fs2);
            assert(out@[x].name == hv[x] && out@[x].kind == infer_kind(fs) && out@[x].cells
                == Seq::new(fs.len(), |r: int| cell_of(infer_kind(fs), fs[r])));
            assert(target[x].cells =~= out@[x].cells);
        }
        assert(out@ =~= target);
        assert(wf_table(out@)) by {
            assert(forall|x: int, y: int|
                0 <= x < y < out@.len() ==> out@[x].name != out@[y].name);
            if out@.len() > 0 {
                assert(out@[0].cells.len() == nrows);
            }
        }
        assert(bounded_table(out@));
    }
    Ok(out)
}

/// The text a cell writes into a delimited field: its canonical text,
/// nothing for a missing cell. Values are written bare, without quoting.
pub open spec fn csv_field(v: ValV) -> Seq<char> {
    if v is Null {
        Seq::empty()
    } else {
        val_text(v)
    }
}

/// The first `i` fields of one output line (the header when `r` is
/// negative, else record `r`), comma separated.
pub open spec fn line_upto(t: Seq<ColV>, r: int, i: int) -> Seq<char>
    decreases i,
{
    if i <= 0 {
        Seq::empty()
    } else {
        let sep: Seq<char> = if i - 1 > 0 {
            seq![',']
        } else {
            Seq::empty()
        };
        let piece: Seq<char> = if r < 0 {
            t[i - 1].name
        } else {
            csv_field(t[i - 1].cells[r])
        };
        line_upto(t, r, i - 1) + sep + piece
    }
}

/// The first header line and `n` records, each line newline terminated.
pub open spec fn csv_upto(t: Seq<ColV>, n: int) -> Seq<char>
    decreases n + 1,
{
    if n < 0 {
        Seq::empty()
    } else if n == 0 {
        line_upto(t, -1, t.len() as int) + seq!['\n']
    } else {
        csv_upto(t, n - 1) + line_upto(t, n - 1, t.len() as int) + seq!['\n']
    }
}

/// The whole delimited text of a table.
pub open spec fn csv_out(t: Seq<ColV>) -> Seq<char> {
    csv_upto(t, table_rows(t))
}

/// Writes a table as delimited text with a header row.
pub fn to_delimited(t: &Table) -> (r: Vec<char>)
    requires
        wf_table(t@),
    ensures
        r@ == csv_out(t@),
{
    let mut out: Vec<char> = Vec::new();
    let ncols = t.cols.len();
    let rows = t.row_count();
    push_line(t, None, &mut out);
    proof {
        assert(out@ =~= Seq::empty() + (line_upto(t@, -1, t@.len() as int) + seq!['\n']));
    }
    let mut r: usize = 0;
    while r < rows
        invariant
            0 <= r <= rows,
            rows == table_rows(t@),
            wf_table(t@),
            out@ == csv_upto(t@, r as int),
        decreases rows - r,
    {
        push_line(t, Some(r), &mut out);
        r = r + 1;
    }
    out
}

/// Appends one output line and its newline.
fn push_line(t: &Table, r: Option<usize>, out: &mut Vec<char>)
    requires
        wf_table(t@),
        match r {
            Some(r) => r < table_rows(t@),
            None => true,
        },
    ensures
        final(out)@ == old(out)@ + line_upto(
            t@,
            match r {
                Some(r) => r as int,
                None => -1,
            },
            t@.len() as int,
        ) + seq!['\n'],
{
    let ghost rr: int = match r {
        Some(r) => r as int,
        None => -1,
    };
    let mut i: usize = 0;
    while i < t.cols.len()
        invariant
            0 <= i <= t@.len(),
            t@.len() == t.cols@.len(),
            wf_table(t@),
            match r {
                Some(r) => rr == r as int && r < table_rows(t@),
                None => rr == -1,
            },
            out@ == old(out)@ + line_upto(t@, rr, i as int),
        decreases t@.len() - i,
    {
        if i > 0 {
            out.push(',');
        }
        match r {
            None => {
                let mut k: usize = 0;
                let ghost base = out@;
                while k < t.cols[i].name.len()
                    invariant
                        0 <= k <= t.cols@[i as int].name@.len(),
                        i < t.cols@.len(),
                        out@ == base + t.cols@[i as int].name@.take(k as int),
                    decreases t.cols@[i as int].name@.len() - k,
                {
                    out.push(t.cols[i].name[k]);
                    k = k + 1;
                    proof {
                        assert(out@ =~= base + t.cols@[i as int].name@.take(k as int));
                    }
                }
                proof {
                    assert(t.cols@[i as int].name@.take(t.cols@[i as int].name@.len() as int)
                        =~= t@[i as int].name);
                }
            },
            Some(rx) => {
                proof {
                    assert(crate::table::wf_col(t@[i as int]) && t@[i as int].cells.len()
                        == table_rows(t@));
                    assert(crate::table::cell_ok(t@[i as int].kind, t@[i as int].cells[rx as int]));
                }
                let cell = &t.cols[i].cells[rx];
                if !cell.is_null() {
                    crate::text::push_val_text(cell, out);
                }
            },
        }
        i = i + 1;
        proof {
            assert(out@ =~= old(out)@ + line_upto(t@, rr, i as int));
        }
    }
    out.push('\n');
    proof {
        assert(out@ =~= old(out)@ + line_upto(t@, rr, t@.len() as int) + seq!['\n']);
    }
}

pub open spec fn hex_char(d: int) -> char {
    if d < 10 {
        crate::text::digit_char(d)
    } else if d == 10 {
        'a'
    } else if d == 11 {
        'b'
    } else if d == 12 {
        'c'
    } else if d == 13 {
        'd'
    } else if d == 14 {
        'e'
    } else {
        'f'
    }
}

/// The JSON escape of one character.
pub open spec fn esc_char(c: char) -> Seq<char> {
    if c == '"' {
        seq!['\\', '"']
    } else if c == '\\' {
        seq!['\\', '\\']
    } else if c == '\n' {
        seq!['\\', 'n']
    } else if c == '\r' {
        seq!['\\', 'r']
    } else if c == '\t' {
        seq!['\\', 't']
    } else if (c as u32) < 32 {
        seq!['\\', 'u', '0', '0', hex_char(((c as u32) / 16) as int), hex_char(((c as u32) % 16) as int)]
    } else {
        seq![c]
    }
}

pub open spec fn json_escape(s: Seq<char>) -> Seq<char>
    decreases s.len(),
{
    if s.len() == 0 {
        Seq::empty()
    } else {
        json_escape(s.drop_last()) + esc_char(s.last())
    }
}

/// The JSON form of one cell: numbers bare, dates and texts quoted,
/// missing cells as `null`.
pub open spec fn json_val(v: ValV) -> Seq<char> {
    match v {
        ValV::Null => seq!['n', 'u', 'l', 'l'],
        ValV::Int(n) => int_text(n),
        ValV::Float(u) => float_text(u),
        ValV::Bool(b) => bool_text(b),
        ValV::Date(y, m, d) => seq!['"'] + date_text(y, m, d) + seq!['"'],
        ValV::Text(s) => seq!['"'] + json_escape(s) + seq!['"'],
    }
}

/// The first `i` members of the object for record `r`.
pub open spec fn json_fields_upto(t: Seq<ColV>, r: int, i: int) -> Seq<char>
    decreases i,
{
    if i <= 0 {
        Seq::empty()
    } else {
        let sep: Seq<char> = if i - 1 > 0 {
            seq![',']
        } else {
            Seq::empty()
        };
        json_fields_upto(t, r, i - 1) + sep + seq!['"'] + json_escape(t[i - 1].name) + seq!['"', ':']
            + json_val(t[i - 1].cells[r])
    }
}

pub open spec fn json_row(t: Seq<ColV>, r: int) -> Seq<char> {
    seq!['{'] + json_fields_upto(t, r, t.len() as int) + seq!['}']
}

pub open spec fn json_rows_upto(t: Seq<ColV>, n: int) -> Seq<char>
    decreases n,
{
    if n <= 0 {
        Seq::empty()
    } else {
        let sep: Seq<char> = if n - 1 > 0 {
            seq![',']
        } else {
            Seq::empty()
        };
        json_rows_upto(t, n - 1) + sep + json_row(t, n - 1)
    }
}

/// The row-oriented JSON encoding of a whole table: an array of objects
/// mapping each column name to the cell's canonical scalar form.
pub open spec fn json_table(t: Seq<ColV>) -> Seq<char> {
    seq!['['] + json_rows_upto(t, table_rows(t)) + seq![']']
}

fn hex_char_x(d: u32) -> (c: char)
    requires
        d < 16,
    ensures
        c == hex_char(d as int),
{
    if d < 10 {
        crate::text::digit_char_x(d)
    } else if d == 10 {
        'a'
    } else if d == 11 {
        'b'
    } else if d == 12 {
        'c'
    } else if d == 13 {
        'd'
    } else if d == 14 {
        'e'
    } else {
        'f'
    }
}

fn push_escaped(s: &Vec<char>, out: &mut Vec<char>)
    ensures
        final(out)@ == old(out)@ + json_escape(s@),
{
    let mut k: usize = 0;
    while k < s.len()
        invariant
            0 <= k <= s@.len(),
            out@ == old(out)@ + json_escape(s@.take(k as int)),
        decreases s@.len() - k,
    {
        let c = s[k];
        let u = c as u32;
        if c == '"' {
            out.push('\\');
            out.push('"');
        } else if c == '\\' {
            out.push('\\');
            out.push('\\');
        } else if c == '\n' {
            out.push('\\');
            out.push('n');
        } else if c == '\r' {
            out.push('\\');
            out.push('r');
        } else if c == '\t' {
            out.push('\\');
            out.push('t');
        } else if u < 32 {
            out.push('\\');
            out.push('u');
            out.push('0');
            out.push('0');
            out.push(hex_char_x(u / 16));
            out.push(hex_char_x(u % 16));
        } else {
            out.push(c);
        }
        k = k + 1;
        proof {
            assert(s@.take(k as int).drop_last() =~= s@.take(k - 1));
            assert(out@ =~= old(out)@ + json_escape(s@.take(k as int)));
        }
    }
    proof {
        assert(s@.take(s@.len() as int) =~= s@);
    }
}

fn push_json_val(v: &Value, out: &mut Vec<char>)
    requires
        match v@ {
            ValV::Date(y, m, d) => crate::value::valid_date(y, m, d),
            _ => true,
        },
    ensures
        final(out)@ == old(out)@ + json_val(v@),
{
    match v {
        Value::Null => {
            out.push('n');
            out.push('u');
            out.push('l');
            out.push('l');
            proof {
                assert(out@ =~= old(out)@ + json_val(v@));
            }
        },
        Value::Int(n) => {
            crate::text::push_int_text(*n, out);
        },
        Value::Float(u) => {
            crate::text::push_float_text(*u, out);
        },
        Value::Bool(b) => {
            if *b {
                out.push('t');
                out.push('r');
                out.push('u');
                out.push('e');
            } else {
                out.push('f');
                out.push('a');
                out.push('l');
                out.push('s');
                out.push('e');
            }
            proof {
                assert(out@ =~= old(out)@ + json_val(v@));
            }
        },
        Value::Date(dv) => {
            out.push('"');
            crate::text::push_date_text(*dv, out);
            out.push('"');
            proof {
                assert(out@ =~= old(out)@ + json_val(v@));
            }
        },
        Value::Text(s) => {
            out.push('"');
            push_escaped(s, out);
            out.push('"');
            proof {
                assert(out@ =~= old(out)@ + json_val(v@));
            }
        },
    }
}

/// Writes the row-oriented JSON encoding of a table.
pub fn to_json(t: &Table) -> (r: Vec<char>)
    requires
        wf_table(t@),
    ensures
        r@ == json_table(t@),
{
    let mut out: Vec<char> = Vec::new();
    out.push('[');
    let rows = t.row_count();
    let mut r: usize = 0;
    proof {
        assert(out@ =~= seq!['['] + json_rows_upto(t@, 0));
    }
    while r < rows
        invariant
            0 <= r <= rows,
            rows == table_rows(t@),
            wf_table(t@),
            out@ == seq!['['] + json_rows_upto(t@, r as int),
        decreases rows - r,
    {
        if r > 0 {
            out.push(',');
        }
        out.push('{');
        let ghost base = out@;
        let mut i: usize = 0;
        while i < t.cols.len()
            invariant
                0 <= i <= t@.len(),
                t@.len() == t.cols@.len(),
                wf_table(t@),
                r < table_rows(t@),
                out@ == base + json_fields_upto(t@, r as int, i as int),
            decreases t@.len() - i,
        {
            if i > 0 {
                out.push(',');
            }
            out.push('"');
            push_escaped(&t.cols[i].name, &mut out);
            out.push('"');
            out.push(':');
            proof {
                assert(crate::table::wf_col(t@[i as int]) && t@[i as int].cells.len()
                    == table_rows(t@));
                assert(crate::table::cell_ok(t@[i as int].kind, t@[i as int].cells[r as int]));
            }
            push_json_val(&t.cols[i].cells[r], &mut out);
            i = i + 1;
            proof {
                assert(out@ =~= base + json_fields_upto(t@, r as int, i as int));
            }
        }
        out.push('}');
        r = r + 1;
        proof {
            assert(out@ =~= seq!['['] + json_rows_upto(t@, r as int));
        }
    }
    out.push(']');
    proof {
        assert(out@ =~= json_table(t@));
    }
    out
}

/// Relies on `FromIterator for String`: collecting characters builds the
/// string holding exactly those characters.
#[verifier::external_body]
pub fn string_from_chars(v: &Vec<char>) -> (r: String)
    ensures
        r@ == v@,
{
    v.iter().collect()
}

/// Reads a string into its characters.
pub fn chars_of_str(s: &str) -> (r: Vec<char>)
    ensures
        r@ == s@,
{
    let n = s.unicode_len();
    let mut out: Vec<char> = Vec::new();
    let mut k: usize = 0;
    while k < n
        invariant
            0 <= k <= n == s@.len(),
            out@ == s@.take(k as int),
        decreases n - k,
    {
        out.push(s.get_char(k));
        k = k + 1;
        proof {
            assert(out@ =~= s@.take(k as int));
        }
    }
    proof {
        assert(s@.take(n as int) =~= s@);
    }
    out
}

} // verus!
