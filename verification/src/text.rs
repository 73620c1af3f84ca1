//! Canonical text forms of cell values: decimal integers, fixed-point
//! floats, `YYYY-MM-DD` dates.

use vstd::prelude::*;

use crate::value::DateVal;
use crate::value::FLOAT_SCALE;
use crate::value::ValV;
use crate::value::Value;

verus! {

pub open spec fn digit_char(d: int) -> char {
    if d == 0 {
        '0'
    } else if d == 1 {
        '1'
    } else if d == 2 {
        '2'
    } else if d == 3 {
        '3'
    } else if d == 4 {
        '4'
    } else if d == 5 {
        '5'
    } else if d == 6 {
        '6'
    } else if d == 7 {
        '7'
    } else if d == 8 {
        '8'
    } else {
        '9'
    }
}

pub fn digit_char_x(d: u32) -> (c: char)
    requires
        d < 10,
    ensures
        c == digit_char(d as int),
{
    if d == 0 {
        '0'
    } else if d == 1 {
        '1'
    } else if d == 2 {
        '2'
    } else if d == 3 {
        '3'
    } else if d == 4 {
        '4'
    } else if d == 5 {
        '5'
    } else if d == 6 {
        '6'
    } else if d == 7 {
        '7'
    } else if d == 8 {
        '8'
    } else {
        '9'
    }
}

/// Decimal digits of a non-negative number, most significant first.
pub open spec fn dec_text(n: int) -> Seq<char>
    decreases n,
{
    if n < 10 {
        seq![digit_char(n)]
    } else {
        dec_text(n / 10).push(digit_char(n % 10))
    }
}

/// Decimal text of an integer, `-` prefixed when negative.
pub open spec fn int_text(n: int) -> Seq<char> {
    if n < 0 {
        seq!['-'] + dec_text(-n)
    } else {
        dec_text(n)
    }
}

fn push_dec(n: u128, out: &mut Vec<char>)
    ensures
        final(out)@ == old(out)@ + dec_text(n as int),
    decreases n,
{
    if n < 10 {
        out.push(digit_char_x(n as u32));
    } else {
        push_dec(n / 10, out);
        let ghost mid = out@;
        out.push(digit_char_x((n % 10) as u32));
        proof {
            assert(out@ =~= old(out)@ + dec_text(n as int));
        }
    }
}

/// Appends the decimal text of `n`.
pub fn push_int_text(n: i128, out: &mut Vec<char>)
    ensures
        final(out)@ == old(out)@ + int_text(n as int),
{
    if n < 0 {
        out.push('-');
        let mag: u128 = ((-(n + 1)) as u128) + 1;
        proof {
            assert(mag as int == -(n as int));
        }
        push_dec(mag, out);
        proof {
            assert(out@ =~= old(out)@ + int_text(n as int));
        }
    } else {
        push_dec(n as u128, out);
    }
}

pub open spec fn pad2(n: int) -> Seq<char> {
    seq![digit_char(n / 10), digit_char(n % 10)]
}

pub open spec fn pad4(n: int) -> Seq<char> {
    seq![
        digit_char(n / 1000),
        digit_char((n / 100) % 10),
        digit_char((n / 10) % 10),
        digit_char(n % 10),
    ]
}

/// The canonical `YYYY-MM-DD` form of a date.
pub open spec fn date_text(y: int, m: int, d: int) -> Seq<char> {
    pad4(y) + seq!['-'] + pad2(m) + seq!['-'] + pad2(d)
}

/// Appends `YYYY-MM-DD`.
pub fn push_date_text(dv: DateVal, out: &mut Vec<char>)
    requires
        0 <= dv.y <= 9999,
        0 <= dv.m <= 99,
        0 <= dv.d <= 99,
    ensures
        final(out)@ == old(out)@ + date_text(dv.y as int, dv.m as int, dv.d as int),
{
    let y = dv.y as u32;
    let m = dv.m as u32;
    let d = dv.d as u32;
    out.push(digit_char_x(y / 1000));
    out.push(digit_char_x((y / 100) % 10));
    out.push(digit_char_x((y / 10) % 10));
    out.push(digit_char_x(y % 10));
    out.push('-');
    out.push(digit_char_x(m / 10));
    out.push(digit_char_x(m % 10));
    out.push('-');
    out.push(digit_char_x(d / 10));
    out.push(digit_char_x(d % 10));
    proof {
        assert(out@ =~= old(out)@ + date_text(dv.y as int, dv.m as int, dv.d as int));
    }
}

pub open spec fn pad6(n: int) -> Seq<char> {
    seq![
        digit_char(n / 100000),
        digit_char((n / 10000) % 10),
        digit_char((n / 1000) % 10),
        digit_char((n / 100) % 10),
        digit_char((n / 10) % 10),
        digit_char(n % 10),
    ]
}

/// Drops trailing `'0'` characters but keeps at least one character.
pub open spec fn strip_zeros(s: Seq<char>) -> Seq<char>
    decreases s.len(),
{
    if s.len() <= 1 {
        s
    } else if s.last() == '0' {
        strip_zeros(s.drop_last())
    } else {
        s
    }
}

/// The canonical text of a float cell holding `u` micro-units: the integer
/// part, a dot, and the fractional digits with trailing zeros removed
/// (a whole number keeps a single `0`, as in `12.0`).
pub open spec fn float_text(u: int) -> Seq<char> {
    let a = if u < 0 {
        -u
    } else {
        u
    };
    let sign: Seq<char> = if u < 0 {
        seq!['-']
    } else {
        Seq::empty()
    };
    sign + dec_text(a / (FLOAT_SCALE as int)) + seq!['.'] + strip_zeros(
        pad6(a % (FLOAT_SCALE as int)),
    )
}

/// Appends the canonical float text of `u` micro-units.
pub fn push_float_text(u: i128, out: &mut Vec<char>)
    ensures
        final(out)@ == old(out)@ + float_text(u as int),
{
    let a: u128 = if u < 0 {
        out.push('-');
        ((-(u + 1)) as u128) + 1
    } else {
        u as u128
    };
    let scale = FLOAT_SCALE as u128;
    push_dec(a / scale, out);
    out.push('.');
    let fr = (a % scale) as u32;
    let mut frac: Vec<char> = Vec::new();
    frac.push(digit_char_x(fr / 100000));
    frac.push(digit_char_x((fr / 10000) % 10));
    frac.push(digit_char_x((fr / 1000) % 10));
    frac.push(digit_char_x((fr / 100) % 10));
    frac.push(digit_char_x((fr / 10) % 10));
    frac.push(digit_char_x(fr % 10));
    proof {
        assert(frac@ =~= pad6(fr as int));
    }
    loop
        invariant
            1 <= frac@.len() <= 6,
            strip_zeros(frac@) == strip_zeros(pad6(fr as int)),
        ensures
            1 <= frac@.len(),
            strip_zeros(frac@) == strip_zeros(pad6(fr as int)),
            frac@.len() == 1 || frac@.last() != '0',
        decreases frac@.len(),
    {
        if frac.len() > 1 {
            let c = frac[frac.len() - 1];
            if c == '0' {
                let ghost pre = frac@;
                frac.pop();
                proof {
                    assert(frac@ =~= pre.drop_last());
                }
                continue;
            }
        }
        break;
    }
    proof {
        assert(strip_zeros(frac@) == frac@);
    }
    let ghost base = out@;
    let mut k: usize = 0;
    while k < frac.len()
        invariant
            0 <= k <= frac@.len(),
            out@ == base + frac@.take(k as int),
        decreases frac@.len() - k,
    {
        out.push(frac[k]);
        k = k + 1;
        proof {
            assert(out@ =~= base + frac@.take(k as int));
        }
    }
    proof {
        assert(frac@.take(frac@.len() as int) =~= frac@);
        assert(out@ =~= old(out)@ + float_text(u as int));
    }
}

/// The text for boolean cells.
pub open spec fn bool_text(b: bool) -> Seq<char> {
    if b {
        seq!['t', 'r', 'u', 'e']
    } else {
        seq!['f', 'a', 'l', 's', 'e']
    }
}

pub open spec fn null_text() -> Seq<char> {
    seq!['n', 'u', 'l', 'l']
}

/// The canonical text of any cell value.
pub open spec fn val_text(v: ValV) -> Seq<char> {
    match v {
        ValV::Null => null_text(),
        ValV::Text(s) => s,
        ValV::Int(n) => int_text(n),
        ValV::Float(u) => float_text(u),
        ValV::Date(y, m, d) => date_text(y, m, d),
        ValV::Bool(b) => bool_text(b),
    }
}

/// Appends the canonical text of a cell value.
pub fn push_val_text(v: &Value, out: &mut Vec<char>)
    requires
        match v@ {
            ValV::Date(y, m, d) => 0 <= y <= 9999 && 0 <= m <= 99 && 0 <= d <= 99,
            _ => true,
        },
    ensures
        final(out)@ == old(out)@ + val_text(v@),
{
    match v {
        Value::Null => {
            out.push('n');
            out.push('u');
            out.push('l');
            out.push('l');
            proof {
                assert(out@ =~= old(out)@ + null_text());
            }
        },
        Value::Text(s) => {
            let mut k: usize = 0;
            while k < s.len()
                invariant
                    0 <= k <= s@.len(),
                    out@ == old(out)@ + s@.take(k as int),
                decreases s@.len() - k,
            {
                out.push(s[k]);
                k = k + 1;
                proof {
                    assert(out@ =~= old(out)@ + s@.take(k as int));
                }
            }
            proof {
                assert(s@.take(s@.len() as int) =~= s@);
            }
        },
        Value::Int(n) => {
            push_int_text(*n, out);
        },
        Value::Float(u) => {
            push_float_text(*u, out);
        },
        Value::Date(dv) => {
            push_date_text(*dv, out);
        },
        Value::Bool(b) => {
            if *b {
                out.push('t');
                out.push('r');
                out.push('u');
                out.push('e');
            } else {
                out.push('f');
                out.push('a');
                out.push('l');
                out.push('s');
                out.push('e');
            }
            proof {
                assert(out@ =~= old(out)@ + bool_text(*b));
            }
        },
    }
}

} // verus!
