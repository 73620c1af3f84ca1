//! A total order on cell values, used to sort grouped and pivoted results:
//! missing first, then by kind, then by value (texts lexicographically).

use vstd::prelude::*;

use crate::value::ValV;
use crate::value::Value;

verus! {

pub open spec fn vrank(v: ValV) -> int {
    match v {
        ValV::Null => 0,
        ValV::Bool(_) => 1,
        ValV::Int(_) => 2,
        ValV::Float(_) => 3,
        ValV::Date(_, _, _) => 4,
        ValV::Text(_) => 5,
    }
}

/// Lexicographic order on character sequences, by code point.
pub open spec fn lex_le(a: Seq<char>, b: Seq<char>) -> bool
    decreases a.len(),
{
    if a.len() == 0 {
        true
    } else if b.len() == 0 {
        false
    } else if a[0] == b[0] {
        lex_le(a.skip(1), b.skip(1))
    } else {
        (a[0] as u32) < (b[0] as u32)
    }
}

/// The total order on cell values.
pub open spec fn val_le(a: ValV, b: ValV) -> bool {
    if vrank(a) != vrank(b) {
        vrank(a) < vrank(b)
    } else {
        match (a, b) {
            (ValV::Bool(x), ValV::Bool(y)) => !x || y,
            (ValV::Int(x), ValV::Int(y)) => x <= y,
            (ValV::Float(x), ValV::Float(y)) => x <= y,
            (ValV::Date(y1, m1, d1), ValV::Date(y2, m2, d2)) => if y1 != y2 {
                y1 < y2
            } else if m1 != m2 {
                m1 < m2
            } else {
                d1 <= d2
            },
            (ValV::Text(x), ValV::Text(y)) => lex_le(x, y),
            _ => true,
        }
    }
}

/// Lexicographic order on equal-length grouping keys.
pub open spec fn key_le_from(a: Seq<ValV>, b: Seq<ValV>, i: int) -> bool
    decreases a.len() - i,
{
    if i < 0 || i >= a.len() || i >= b.len() {
        true
    } else if a[i] == b[i] {
        key_le_from(a, b, i + 1)
    } else {
        val_le(a[i], b[i])
    }
}

pub open spec fn key_le(a: Seq<ValV>, b: Seq<ValV>) -> bool {
    key_le_from(a, b, 0)
}

/// Compares two character vectors.
fn lex_le_x(a: &Vec<char>, b: &Vec<char>) -> (r: bool)
    ensures
        r == lex_le(a@, b@),
{
    let mut i: usize = 0;
    proof {
        assert(a@.skip(0) =~= a@);
        assert(b@.skip(0) =~= b@);
    }
    loop
        invariant
            0 <= i <= a@.len(),
            i <= b@.len(),
            lex_le(a@, b@) == lex_le(a@.skip(i as int), b@.skip(i as int)),
        ensures
            lex_le(a@, b@) == lex_le(a@.skip(i as int), b@.skip(i as int)),
            i == a@.len() || i == b@.len() || a@[i as int] != b@[i as int],
            i <= a@.len() && i <= b@.len(),
        decreases a@.len() - i,
    {
        if i == a.len() || i == b.len() {
            break;
        }
        if a[i] != b[i] {
            break;
        }
        proof {
            assert(a@.skip(i as int).skip(1) =~= a@.skip(i + 1));
            assert(b@.skip(i as int).skip(1) =~= b@.skip(i + 1));
            assert(a@.skip(i as int)[0] == a@[i as int]);
            assert(b@.skip(i as int)[0] == b@[i as int]);
        }
        i = i + 1;
    }
    if i == a.len() {
        proof {
            assert(a@.skip(i as int).len() == 0);
        }
        true
    } else if i == b.len() {
        proof {
            assert(b@.skip(i as int).len() == 0 && a@.skip(i as int).len() > 0);
        }
        false
    } else {
        proof {
            assert(a@.skip(i as int)[0] == a@[i as int]);
            assert(b@.skip(i as int)[0] == b@[i as int]);
        }
        (a[i] as u32) < (b[i] as u32)
    }
}

/// Compares two cell values in the total order.
pub fn val_le_x(a: &Value, b: &Value) -> (r: bool)
    ensures
        r == val_le(a@, b@),
{
    let ra = vrank_x(a);
    let rb = vrank_x(b);
    if ra != rb {
        return ra < rb;
    }
    match (a, b) {
        (Value::Bool(x), Value::Bool(y)) => !*x || *y,
        (Value::Int(x), Value::Int(y)) => *x <= *y,
        (Value::Float(x), Value::Float(y)) => *x <= *y,
        (Value::Date(x), Value::Date(y)) => {
            if x.y != y.y {
                x.y < y.y
            } else if x.m != y.m {
                x.m < y.m
            } else {
                x.d <= y.d
            }
        },
        (Value::Text(x), Value::Text(y)) => lex_le_x(x, y),
        _ => true,
    }
}

fn vrank_x(v: &Value) -> (r: i32)
    ensures
        r == vrank(v@),
{
    match v {
        Value::Null => 0,
        Value::Bool(_) => 1,
        Value::Int(_) => 2,
        Value::Float(_) => 3,
        Value::Date(_) => 4,
        Value::Text(_) => 5,
    }
}

/// Compares two grouping keys of equal length.
pub fn key_le_x(a: &Vec<Value>, b: &Vec<Value>) -> (r: bool)
    requires
        a@.len() == b@.len(),
    ensures
        r == key_le(crate::table::cellseq(a@), crate::table::cellseq(b@)),
{
    let ghost av = crate::table::cellseq(a@);
    let ghost bv = crate::table::cellseq(b@);
    let mut i: usize = 0;
    while i < a.len()
        invariant
            0 <= i <= a@.len(),
            a@.len() == b@.len(),
            av == crate::table::cellseq(a@),
            bv == crate::table::cellseq(b@),
            key_le(av, bv) == key_le_from(av, bv, i as int),
        decreases a@.len() - i,
    {
        if !crate::table::val_eq(&a[i], &b[i]) {
            return val_le_x(&a[i], &b[i]);
        }
        i = i + 1;
    }
    true
}

} // verus!
