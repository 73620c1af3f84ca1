//! Heuristic extraction of typed values from raw text: digit runs for
//! integers, numeric runs with thousands separators for floats, a fixed
//! priority list of date layouts, and whitespace trimming.

use vstd::prelude::*;

use crate::value::FLOAT_SCALE;

verus! {

pub open spec fn is_digit(c: char) -> bool {
    48 <= c as u32 <= 57
}

pub open spec fn digit_val(c: char) -> int {
    c as u32 - 48
}

/// A word character in the sense of the pattern boundaries used by the date
/// layouts: an ASCII letter, digit or underscore.
pub open spec fn is_word(c: char) -> bool {
    is_digit(c) || 65 <= c as u32 <= 90 || 97 <= c as u32 <= 122 || c as u32 == 95
}

/// ASCII whitespace, the set removed by trimming.
pub open spec fn is_space(c: char) -> bool {
    c as u32 == 32 || 9 <= c as u32 <= 13
}

pub fn is_digit_x(c: char) -> (r: bool)
    ensures
        r == is_digit(c),
{
    let u = c as u32;
    48 <= u && u <= 57
}

fn is_word_x(c: char) -> (r: bool)
    ensures
        r == is_word(c),
{
    let u = c as u32;
    (48 <= u && u <= 57) || (65 <= u && u <= 90) || (97 <= u && u <= 122) || u == 95
}

fn is_space_x(c: char) -> (r: bool)
    ensures
        r == is_space(c),
{
    let u = c as u32;
    u == 32 || (9 <= u && u <= 13)
}

pub open spec fn all_digits(s: Seq<char>) -> bool {
    forall|i: int| 0 <= i < s.len() ==> is_digit(s[i])
}

/// The number written by a digit sequence, most significant digit first.
pub open spec fn digits_val(s: Seq<char>) -> int
    decreases s.len(),
{
    if s.len() == 0 {
        0
    } else {
        digits_val(s.drop_last()) * 10 + digit_val(s.last())
    }
}

pub open spec fn pow10(k: int) -> int
    decreases k,
{
    if k <= 0 {
        1
    } else {
        10 * pow10(k - 1)
    }
}

pub proof fn lemma_digits_val_bound(s: Seq<char>)
    requires
        all_digits(s),
    ensures
        0 <= digits_val(s) < pow10(s.len() as int),
    decreases s.len(),
{
    if s.len() > 0 {
        assert(all_digits(s.drop_last())) by {
            assert(forall|i: int|
                0 <= i < s.len() - 1 ==> s.drop_last()[i] == s[i] && is_digit(s[i]));
        }
        lemma_digits_val_bound(s.drop_last());
        assert(is_digit(s.last()));
    }
}

proof fn lemma_digits_val_mono(s: Seq<char>, a: int, t: int, j: int)
    requires
        0 <= a <= t <= j <= s.len(),
        forall|k: int| a <= k < j ==> is_digit(s[k]),
    ensures
        0 <= digits_val(s.subrange(a, t)) <= digits_val(s.subrange(a, j)),
    decreases j - t,
{
    lemma_digits_val_bound(s.subrange(a, t));
    if t < j {
        lemma_digits_val_mono(s, a, t + 1, j);
        lemma_digits_val_bound(s.subrange(a, t + 1));
        assert(s.subrange(a, t + 1).drop_last() =~= s.subrange(a, t));
        assert(digits_val(s.subrange(a, t + 1)) == digits_val(s.subrange(a, t)) * 10
            + digit_val(s[t]));
    }
}

/// Reads the number written in `s.subrange(from, to)`; stops with `None` as
/// soon as the value can no longer lie within `bound`.
fn read_digits(s: &Vec<char>, from: usize, to: usize, bound: i64) -> (r: Option<i64>)
    requires
        0 <= from <= to <= s@.len(),
        forall|k: int| from <= k < to ==> is_digit(s@[k]),
        0 < bound <= 0xfffffffffffff,
    ensures
        match r {
            Some(v) => v == digits_val(s@.subrange(from as int, to as int)) && 0 <= v <= bound,
            None => digits_val(s@.subrange(from as int, to as int)) > bound,
        },
{
    let mut acc: i64 = 0;
    let mut t: usize = from;
    while t < to
        invariant
            from <= t <= to <= s@.len(),
            forall|k: int| from <= k < to ==> is_digit(s@[k]),
            acc == digits_val(s@.subrange(from as int, t as int)),
            0 <= acc <= bound,
            0 < bound <= 0xfffffffffffff,
        decreases to - t,
    {
        let c = s[t];
        let d = (c as u32) as i64 - 48;
        proof {
            assert(is_digit(s@[t as int]));
            assert(s@.subrange(from as int, t + 1 as int).drop_last() =~= s@.subrange(
                from as int,
                t as int,
            ));
        }
        let next = acc * 10 + d;
        if next > bound {
            proof {
                lemma_digits_val_mono(s@, from as int, t + 1 as int, to as int);
            }
            return None;
        }
        acc = next;
        t = t + 1;
    }
    proof {
        assert(s@.subrange(from as int, to as int) == s@.subrange(from as int, t as int));
    }
    Some(acc)
}

/// The first position at or after `i` holding a digit.
pub open spec fn find_digit_from(s: Seq<char>, i: int) -> Option<int>
    decreases s.len() - i,
{
    if i < 0 || i >= s.len() {
        None
    } else if is_digit(s[i]) {
        Some(i)
    } else {
        find_digit_from(s, i + 1)
    }
}

/// The end of the digit run starting at `i`.
pub open spec fn digit_run_end(s: Seq<char>, i: int) -> int
    decreases s.len() - i,
{
    if i < 0 || i >= s.len() || !is_digit(s[i]) {
        i
    } else {
        digit_run_end(s, i + 1)
    }
}

proof fn lemma_digit_run_end(s: Seq<char>, i: int)
    requires
        0 <= i <= s.len(),
    ensures
        i <= digit_run_end(s, i) <= s.len(),
        forall|k: int| i <= k < digit_run_end(s, i) ==> is_digit(s[k]),
        digit_run_end(s, i) == s.len() || !is_digit(s[digit_run_end(s, i)]),
    decreases s.len() - i,
{
    if i < s.len() && is_digit(s[i]) {
        lemma_digit_run_end(s, i + 1);
    }
}

/// A member of the numeric-run character class: digit, comma or dot.
pub open spec fn is_num_run(c: char) -> bool {
    is_digit(c) || c == ',' || c == '.'
}

pub open spec fn num_run_end(s: Seq<char>, i: int) -> int
    decreases s.len() - i,
{
    if i < 0 || i >= s.len() || !is_num_run(s[i]) {
        i
    } else {
        num_run_end(s, i + 1)
    }
}

proof fn lemma_num_run_end(s: Seq<char>, i: int)
    requires
        0 <= i <= s.len(),
    ensures
        i <= num_run_end(s, i) <= s.len(),
        forall|k: int| i <= k < num_run_end(s, i) ==> is_num_run(s[k]),
        num_run_end(s, i) == s.len() || !is_num_run(s[num_run_end(s, i)]),
    decreases s.len() - i,
{
    if i < s.len() && is_num_run(s[i]) {
        lemma_num_run_end(s, i + 1);
    }
}

/// The heuristic integer reading of raw text: the first run of digits,
/// provided its value fits a 32-bit signed integer; no run or an oversized
/// value reads as missing.
pub open spec fn int_extract(s: Seq<char>) -> Option<int> {
    match find_digit_from(s, 0) {
        None => None,
        Some(i) => {
            let v = digits_val(s.subrange(i, digit_run_end(s, i)));
            if v <= 0x7fffffff {
                Some(v)
            } else {
                None
            }
        },
    }
}

/// Finds the first digit of `s`, as `find_digit_from(s, 0)`.
fn find_first_digit(s: &Vec<char>) -> (r: Option<usize>)
    ensures
        match r {
            Some(i) => find_digit_from(s@, 0) == Some(i as int) && i < s@.len() && is_digit(
                s@[i as int],
            ),
            None => find_digit_from(s@, 0) is None,
        },
{
    let mut i: usize = 0;
    while i < s.len()
        invariant
            0 <= i <= s@.len(),
            find_digit_from(s@, 0) == find_digit_from(s@, i as int),
        decreases s@.len() - i,
    {
        if is_digit_x(s[i]) {
            return Some(i);
        }
        i = i + 1;
    }
    None
}

/// The heuristic integer reading, executable form.
pub fn int_extract_x(s: &Vec<char>) -> (r: Option<i64>)
    ensures
        match r {
            Some(v) => int_extract(s@) == Some(v as int) && 0 <= v <= 0x7fffffff,
            None => int_extract(s@) is None,
        },
{
    match find_first_digit(s) {
        None => None,
        Some(i) => {
            proof {
                lemma_digit_run_end(s@, i as int);
            }
            let mut j: usize = i;
            while j < s.len() && is_digit_x(s[j])
                invariant
                    i <= j <= s@.len(),
                    digit_run_end(s@, i as int) == digit_run_end(s@, j as int),
                    forall|k: int| i <= k < j ==> is_digit(s@[k]),
                decreases s@.len() - j,
            {
                j = j + 1;
            }
            proof {
                lemma_digit_run_end(s@, i as int);
            }
            read_digits(s, i, j, 0x7fffffff)
        },
    }
}

fn is_num_run_x(c: char) -> (r: bool)
    ensures
        r == is_num_run(c),
{
    is_digit_x(c) || c == ',' || c == '.'
}

proof fn lemma_pow10_vals()
    ensures
        pow10(1) == 10,
        pow10(2) == 100,
        pow10(3) == 1000,
        pow10(4) == 10000,
        pow10(5) == 100000,
        pow10(6) == 1000000,
{
    reveal_with_fuel(pow10, 8);
}

/// The numeric run with its commas removed.
pub open spec fn strip_commas(s: Seq<char>) -> Seq<char>
    decreases s.len(),
{
    if s.len() == 0 {
        Seq::empty()
    } else {
        let p = strip_commas(s.drop_last());
        if s.last() == ',' {
            p
        } else {
            p.push(s.last())
        }
    }
}

/// A run ending in a bare dot gets a `0` appended before it is read.
pub open spec fn fix_trailing_dot(s: Seq<char>) -> Seq<char> {
    if s.len() > 0 && s.last() == '.' {
        s.push('0')
    } else {
        s
    }
}

/// The first dot at or after `i`.
pub open spec fn dot_from(s: Seq<char>, i: int) -> Option<int>
    decreases s.len() - i,
{
    if i < 0 || i >= s.len() {
        None
    } else if s[i] == '.' {
        Some(i)
    } else {
        dot_from(s, i + 1)
    }
}

/// Micro-units written by a fractional digit sequence: the first six digits,
/// right-padded with zeros.
pub open spec fn frac_units(fd: Seq<char>) -> int {
    if fd.len() >= 6 {
        digits_val(fd.take(6))
    } else {
        digits_val(fd) * pow10(6 - fd.len())
    }
}

/// Micro-units written by an unsigned decimal literal `digits[.digits]`,
/// `None` when the text is not of that shape or its integer part does not
/// fit a 32-bit signed integer.
pub open spec fn plain_float_val(s: Seq<char>) -> Option<int> {
    match dot_from(s, 0) {
        None => if s.len() > 0 && all_digits(s) && digits_val(s) <= 0x7fffffff {
            Some(digits_val(s) * (FLOAT_SCALE as int))
        } else {
            None
        },
        Some(p) => {
            let ip = s.take(p);
            let fd = s.skip(p + 1);
            if p > 0 && fd.len() > 0 && all_digits(ip) && all_digits(fd) && digits_val(ip)
                <= 0x7fffffff {
                Some(digits_val(ip) * (FLOAT_SCALE as int) + frac_units(fd))
            } else {
                None
            }
        },
    }
}

/// The heuristic float reading of raw text: the first numeric run (digits,
/// commas, dots), commas stripped and a trailing dot completed, read as a
/// decimal literal; anything else is missing.
pub open spec fn float_extract(s: Seq<char>) -> Option<int> {
    match find_digit_from(s, 0) {
        None => None,
        Some(i) => plain_float_val(
            fix_trailing_dot(strip_commas(s.subrange(i, num_run_end(s, i)))),
        ),
    }
}

/// Checks that `s[from..to]` is all digits.
pub fn digits_between(s: &Vec<char>, from: usize, to: usize) -> (r: bool)
    requires
        0 <= from <= to <= s@.len(),
    ensures
        r == forall|k: int| from <= k < to ==> is_digit(s@[k]),
{
    let mut k: usize = from;
    while k < to
        invariant
            from <= k <= to <= s@.len(),
            forall|j: int| from <= j < k ==> is_digit(s@[j]),
        decreases to - k,
    {
        if !is_digit_x(s[k]) {
            return false;
        }
        k = k + 1;
    }
    true
}

fn find_dot(s: &Vec<char>) -> (r: Option<usize>)
    ensures
        match r {
            Some(p) => dot_from(s@, 0) == Some(p as int) && p < s@.len(),
            None => dot_from(s@, 0) is None,
        },
{
    let mut i: usize = 0;
    while i < s.len()
        invariant
            0 <= i <= s@.len(),
            dot_from(s@, 0) == dot_from(s@, i as int),
        decreases s@.len() - i,
    {
        if s[i] == '.' {
            return Some(i);
        }
        i = i + 1;
    }
    None
}

/// Reads an unsigned decimal literal, in micro-units.
fn plain_float_x(s: &Vec<char>) -> (r: Option<i128>)
    ensures
        match r {
            Some(v) => plain_float_val(s@) == Some(v as int) && 0 <= v
                <= 0x7fffffff * 1000000 + 999999,
            None => plain_float_val(s@) is None,
        },
{
    proof {
        lemma_pow10_vals();
    }
    let dot = find_dot(s);
    match dot {
        None => {
            if s.len() == 0 || !digits_between(s, 0, s.len()) {
                return None;
            }
            proof {
                assert(s@.subrange(0, s@.len() as int) =~= s@);
            }
            match read_digits(s, 0, s.len(), 0x7fffffff) {
                None => None,
                Some(v) => Some((v as i128) * 1000000),
            }
        },
        Some(p) => {
            let fl = s.len() - (p + 1);
            if !(p > 0 && fl > 0) {
                return None;
            }
            proof {
                assert(s@.take(p as int) =~= s@.subrange(0, p as int));
                assert(s@.skip(p + 1) =~= s@.subrange(p + 1, s@.len() as int));
            }
            if !digits_between(s, 0, p) {
                proof {
                    let k = choose|k: int| 0 <= k < p && !is_digit(s@[k]);
                    assert(!is_digit(s@.take(p as int)[k]));
                }
                return None;
            }
            if !digits_between(s, p + 1, s.len()) {
                proof {
                    let k = choose|k: int| p + 1 <= k < s@.len() && !is_digit(s@[k]);
                    assert(!is_digit(s@.skip(p + 1)[k - p - 1]));
                }
                return None;
            }
            let ip = match read_digits(s, 0, p, 0x7fffffff) {
                None => {
                    return None;
                },
                Some(v) => v,
            };
            let fcount = if fl >= 6 {
                6
            } else {
                fl
            };
            proof {
                assert(s@.skip(p + 1).take(fcount as int) =~= s@.subrange(
                    p + 1,
                    p + 1 + fcount,
                ));
                lemma_digits_val_bound(s@.subrange(p + 1, p + 1 + fcount));
            }
            let fv = match read_digits(s, p + 1, p + 1 + fcount, 999999) {
                None => {
                    return None;
                },
                Some(v) => v,
            };
            let mult: i64 = if fl >= 6 {
                1
            } else if fl == 5 {
                10
            } else if fl == 4 {
                100
            } else if fl == 3 {
                1000
            } else if fl == 2 {
                10000
            } else {
                100000
            };
            Some((ip as i128) * 1000000 + (fv * mult) as i128)
        },
    }
}

/// The heuristic float reading, executable form.
pub fn float_extract_x(s: &Vec<char>) -> (r: Option<i128>)
    ensures
        match r {
            Some(v) => float_extract(s@) == Some(v as int) && 0 <= v
                <= 0x7fffffff * 1000000 + 999999,
            None => float_extract(s@) is None,
        },
{
    let i = match find_first_digit(s) {
        None => {
            return None;
        },
        Some(i) => i,
    };
    proof {
        lemma_num_run_end(s@, i as int);
    }
    let mut j: usize = i;
    while j < s.len() && is_num_run_x(s[j])
        invariant
            i <= j <= s@.len(),
            num_run_end(s@, i as int) == num_run_end(s@, j as int),
            forall|k: int| i <= k < j ==> is_num_run(s@[k]),
        decreases s@.len() - j,
    {
        j = j + 1;
    }
    let ghost run = s@.subrange(i as int, j as int);
    let mut cleaned: Vec<char> = Vec::new();
    let mut k: usize = i;
    while k < j
        invariant
            i <= k <= j <= s@.len(),
            cleaned@ == strip_commas(s@.subrange(i as int, k as int)),
        decreases j - k,
    {
        let c = s[k];
        proof {
            assert(s@.subrange(i as int, k + 1 as int).drop_last() =~= s@.subrange(
                i as int,
                k as int,
            ));
        }
        if c != ',' {
            cleaned.push(c);
        }
        k = k + 1;
    }
    if cleaned.len() > 0 && cleaned[cleaned.len() - 1] == '.' {
        cleaned.push('0');
    }
    proof {
        assert(cleaned@ == fix_trailing_dot(strip_commas(run)));
    }
    plain_float_x(&cleaned)
}

/// The strict signed-integer reading used for filter values: an optional
/// sign followed only by digits, within the 32-bit signed range.
pub open spec fn strict_int(s: Seq<char>) -> Option<int> {
    let neg = s.len() > 0 && s[0] == '-';
    let body = if s.len() > 0 && (s[0] == '-' || s[0] == '+') {
        s.skip(1)
    } else {
        s
    };
    if body.len() > 0 && all_digits(body) {
        let v = if neg {
            -digits_val(body)
        } else {
            digits_val(body)
        };
        if -0x80000000 <= v <= 0x7fffffff {
            Some(v)
        } else {
            None
        }
    } else {
        None
    }
}

/// The strict decimal reading used for filter values: an optional sign and
/// an unsigned decimal literal.
pub open spec fn strict_float(s: Seq<char>) -> Option<int> {
    let neg = s.len() > 0 && s[0] == '-';
    let body = if s.len() > 0 && (s[0] == '-' || s[0] == '+') {
        s.skip(1)
    } else {
        s
    };
    match plain_float_val(body) {
        None => None,
        Some(v) => Some(
            if neg {
                -v
            } else {
                v
            },
        ),
    }
}

fn sign_body(s: &Vec<char>) -> (r: (bool, Vec<char>))
    ensures
        r.0 == (s@.len() > 0 && s@[0] == '-'),
        r.1@ == (if s@.len() > 0 && (s@[0] == '-' || s@[0] == '+') {
            s@.skip(1)
        } else {
            s@
        }),
{
    let mut neg = false;
    let mut start: usize = 0;
    if s.len() > 0 && (s[0] == '-' || s[0] == '+') {
        neg = s[0] == '-';
        start = 1;
    }
    let mut body: Vec<char> = Vec::new();
    let mut k: usize = start;
    while k < s.len()
        invariant
            start <= k <= s@.len(),
            body@ == s@.subrange(start as int, k as int),
        decreases s@.len() - k,
    {
        body.push(s[k]);
        k = k + 1;
        proof {
            assert(body@ =~= s@.subrange(start as int, k as int));
        }
    }
    proof {
        if start == 1 {
            assert(s@.subrange(1, s@.len() as int) =~= s@.skip(1));
        } else {
            assert(s@.subrange(0, s@.len() as int) =~= s@);
        }
    }
    (neg, body)
}

/// The strict signed-integer reading, executable form.
pub fn strict_int_x(s: &Vec<char>) -> (r: Option<i64>)
    ensures
        match r {
            Some(v) => strict_int(s@) == Some(v as int) && -0x80000000 <= v <= 0x7fffffff,
            None => strict_int(s@) is None,
        },
{
    let (neg, body) = sign_body(s);
    if body.len() == 0 || !digits_between(&body, 0, body.len()) {
        return None;
    }
    proof {
        assert(body@.subrange(0, body@.len() as int) =~= body@);
    }
    match read_digits(&body, 0, body.len(), 0x80000000) {
        None => None,
        Some(v) => {
            if neg {
                Some(-v)
            } else if v <= 0x7fffffff {
                Some(v)
            } else {
                None
            }
        },
    }
}

/// The strict decimal reading, executable form, in micro-units.
pub fn strict_float_x(s: &Vec<char>) -> (r: Option<i128>)
    ensures
        match r {
            Some(v) => strict_float(s@) == Some(v as int) && -0x7fffffff * 1000000 - 999999 <= v
                <= 0x7fffffff * 1000000 + 999999,
            None => strict_float(s@) is None,
        },
{
    let (neg, body) = sign_body(s);
    match plain_float_x(&body) {
        None => None,
        Some(v) => Some(
            if neg {
                -v
            } else {
                v
            },
        ),
    }
}

pub open spec fn digits_at(s: Seq<char>, i: int, k: int) -> bool {
    forall|j: int| i <= j < i + k ==> is_digit(s[j])
}

pub open spec fn num_at(s: Seq<char>, i: int, k: int) -> int {
    digits_val(s.subrange(i, i + k))
}

/// Word boundaries on both sides of `s[i .. i+l]`.
pub open spec fn boundary_ok(s: Seq<char>, i: int, l: int) -> bool {
    (i == 0 || !is_word(s[i - 1])) && (i + l == s.len() || !is_word(s[i + l]))
}

pub open spec fn sep_dash_dot(c: char) -> bool {
    c == '-' || c == '.'
}

/// Length of date layout `k`; the layouts in priority order are
/// 0: `YYYY-MM-DD` / `YYYY.MM.DD`, 1: `YYYYMMDD`, 2: `YYMMDD`,
/// 3: `YYYY/MM/DD`, 4: `DD/MM/YYYY`, 5: the localized `YYYY年MM月DD日`.
pub open spec fn layout_len(k: int) -> int {
    if k == 1 {
        8
    } else if k == 2 {
        6
    } else if k == 5 {
        11
    } else {
        10
    }
}

pub open spec fn layout_shape(s: Seq<char>, i: int, k: int) -> bool {
    if k == 0 {
        digits_at(s, i, 4) && sep_dash_dot(s[i + 4]) && digits_at(s, i + 5, 2) && sep_dash_dot(
            s[i + 7],
        ) && digits_at(s, i + 8, 2)
    } else if k == 1 {
        digits_at(s, i, 8)
    } else if k == 2 {
        digits_at(s, i, 6)
    } else if k == 3 {
        digits_at(s, i, 4) && s[i + 4] == '/' && digits_at(s, i + 5, 2) && s[i + 7] == '/'
            && digits_at(s, i + 8, 2)
    } else if k == 4 {
        digits_at(s, i, 2) && s[i + 2] == '/' && digits_at(s, i + 3, 2) && s[i + 5] == '/'
            && digits_at(s, i + 6, 4)
    } else {
        digits_at(s, i, 4) && s[i + 4] == '年' && digits_at(s, i + 5, 2) && s[i + 7] == '月'
            && digits_at(s, i + 8, 2) && s[i + 10] == '日'
    }
}

pub open spec fn layout_match(s: Seq<char>, i: int, k: int) -> bool {
    0 <= i && i + layout_len(k) <= s.len() && boundary_ok(s, i, layout_len(k)) && layout_shape(
        s,
        i,
        k,
    )
}

/// The leftmost match of layout `k` at or after `i`.
pub open spec fn layout_find_from(s: Seq<char>, k: int, i: int) -> Option<int>
    decreases s.len() - i,
{
    if i < 0 || i + layout_len(k) > s.len() {
        None
    } else if layout_match(s, i, k) {
        Some(i)
    } else {
        layout_find_from(s, k, i + 1)
    }
}

/// Year, month and day fields of a layout match (`YYMMDD` years read as
/// `20YY`; `DD/MM/YYYY` reorders to year, month, day).
pub open spec fn layout_ymd(s: Seq<char>, i: int, k: int) -> (int, int, int) {
    if k == 1 {
        (num_at(s, i, 4), num_at(s, i + 4, 2), num_at(s, i + 6, 2))
    } else if k == 2 {
        (2000 + num_at(s, i, 2), num_at(s, i + 2, 2), num_at(s, i + 4, 2))
    } else if k == 4 {
        (num_at(s, i + 6, 4), num_at(s, i + 3, 2), num_at(s, i, 2))
    } else {
        (num_at(s, i, 4), num_at(s, i + 5, 2), num_at(s, i + 8, 2))
    }
}

/// The date reading of raw text: the layouts are tried in priority order,
/// the first one that matches anywhere wins, and text matching none reads
/// as the sentinel `2000-01-01`.
pub open spec fn date_extract(s: Seq<char>) -> (int, int, int) {
    match layout_find_from(s, 0, 0) {
        Some(i) => layout_ymd(s, i, 0),
        None => match layout_find_from(s, 1, 0) {
            Some(i) => layout_ymd(s, i, 1),
            None => match layout_find_from(s, 2, 0) {
                Some(i) => layout_ymd(s, i, 2),
                None => match layout_find_from(s, 3, 0) {
                    Some(i) => layout_ymd(s, i, 3),
                    None => match layout_find_from(s, 4, 0) {
                        Some(i) => layout_ymd(s, i, 4),
                        None => match layout_find_from(s, 5, 0) {
                            Some(i) => layout_ymd(s, i, 5),
                            None => (2000, 1, 1),
                        },
                    },
                },
            },
        },
    }
}

fn layout_len_x(k: usize) -> (r: usize)
    requires
        k <= 5,
    ensures
        r == layout_len(k as int),
{
    if k == 1 {
        8
    } else if k == 2 {
        6
    } else if k == 5 {
        11
    } else {
        10
    }
}

fn layout_match_x(s: &Vec<char>, i: usize, k: usize) -> (r: bool)
    requires
        k <= 5,
        i + layout_len(k as int) <= s@.len(),
    ensures
        r == layout_match(s@, i as int, k as int),
{
    let l = layout_len_x(k);
    let n = s.len();
    assert(i + l <= n);
    if !(i == 0 || !is_word_x(s[i - 1])) {
        return false;
    }
    if !(i + l == s.len() || !is_word_x(s[i + l])) {
        return false;
    }
    if k == 0 {
        let s4 = s[i + 4];
        let s7 = s[i + 7];
        digits_between(s, i, i + 4) && (s4 == '-' || s4 == '.') && digits_between(s, i + 5, i + 7)
            && (s7 == '-' || s7 == '.') && digits_between(s, i + 8, i + 10)
    } else if k == 1 {
        digits_between(s, i, i + 8)
    } else if k == 2 {
        digits_between(s, i, i + 6)
    } else if k == 3 {
        digits_between(s, i, i + 4) && s[i + 4] == '/' && digits_between(s, i + 5, i + 7)
            && s[i + 7] == '/' && digits_between(s, i + 8, i + 10)
    } else if k == 4 {
        digits_between(s, i, i + 2) && s[i + 2] == '/' && digits_between(s, i + 3, i + 5)
            && s[i + 5] == '/' && digits_between(s, i + 6, i + 10)
    } else {
        digits_between(s, i, i + 4) && s[i + 4] == '年' && digits_between(s, i + 5, i + 7)
            && s[i + 7] == '月' && digits_between(s, i + 8, i + 10) && s[i + 10] == '日'
    }
}

fn find_layout_x(s: &Vec<char>, k: usize) -> (r: Option<usize>)
    requires
        k <= 5,
    ensures
        match r {
            Some(i) => layout_find_from(s@, k as int, 0) == Some(i as int) && layout_match(
                s@,
                i as int,
                k as int,
            ),
            None => layout_find_from(s@, k as int, 0) is None,
        },
{
    let l = layout_len_x(k);
    let n = s.len();
    if n < l {
        return None;
    }
    let mut i: usize = 0;
    while i <= n - l
        invariant
            0 <= i <= n - l + 1,
            n == s@.len(),
            6 <= l <= n,
            l == layout_len(k as int),
            k <= 5,
            layout_find_from(s@, k as int, 0) == layout_find_from(s@, k as int, i as int),
        decreases n - i,
    {
        if layout_match_x(s, i, k) {
            return Some(i);
        }
        i = i + 1;
    }
    None
}

/// Reads the `l`-digit field at `a`.
pub fn read_num(s: &Vec<char>, a: usize, l: usize) -> (r: i32)
    requires
        1 <= l <= 4,
        a + l <= s@.len(),
        digits_at(s@, a as int, l as int),
    ensures
        r == num_at(s@, a as int, l as int),
        0 <= r <= 9999,
        r < pow10(l as int),
{
    let n = s.len();
    proof {
        lemma_pow10_vals();
        lemma_digits_val_bound(s@.subrange(a as int, a + l as int));
    }
    match read_digits(s, a, a + l, 9999) {
        Some(v) => v as i32,
        None => {
            proof {
                assert(false);
            }
            0
        },
    }
}

fn layout_ymd_x(s: &Vec<char>, i: usize, k: usize) -> (r: (i32, i32, i32))
    requires
        k <= 5,
        layout_match(s@, i as int, k as int),
    ensures
        layout_ymd(s@, i as int, k as int) == (r.0 as int, r.1 as int, r.2 as int),
        0 <= r.0 <= 9999 && 0 <= r.1 <= 9999 && 0 <= r.2 <= 9999,
{
    let n = s.len();
    assert(i + layout_len(k as int) <= n);
    proof {
        lemma_pow10_vals();
    }
    if k == 1 {
        (read_num(s, i, 4), read_num(s, i + 4, 2), read_num(s, i + 6, 2))
    } else if k == 2 {
        (2000 + read_num(s, i, 2), read_num(s, i + 2, 2), read_num(s, i + 4, 2))
    } else if k == 4 {
        (read_num(s, i + 6, 4), read_num(s, i + 3, 2), read_num(s, i, 2))
    } else {
        (read_num(s, i, 4), read_num(s, i + 5, 2), read_num(s, i + 8, 2))
    }
}

/// The date reading, executable form.
pub fn date_extract_x(s: &Vec<char>) -> (r: (i32, i32, i32))
    ensures
        date_extract(s@) == (r.0 as int, r.1 as int, r.2 as int),
        0 <= r.0 <= 9999 && 0 <= r.1 <= 9999 && 0 <= r.2 <= 9999,
{
    let mut k: usize = 0;
    while k < 6
        invariant
            0 <= k <= 6,
            forall|kk: int| 0 <= kk < k ==> layout_find_from(s@, kk, 0) is None,
        decreases 6 - k,
    {
        match find_layout_x(s, k) {
            Some(i) => {
                return layout_ymd_x(s, i, k);
            },
            None => {},
        }
        k = k + 1;
    }
    (2000, 1, 1)
}

/// The first index at or after `i` holding something other than whitespace.
pub open spec fn nonspace_from(s: Seq<char>, i: int) -> int
    decreases s.len() - i,
{
    if i < 0 || i >= s.len() || !is_space(s[i]) {
        i
    } else {
        nonspace_from(s, i + 1)
    }
}

proof fn lemma_nonspace_from(s: Seq<char>, i: int)
    requires
        0 <= i <= s.len(),
    ensures
        i <= nonspace_from(s, i) <= s.len(),
        nonspace_from(s, i) == s.len() || !is_space(s[nonspace_from(s, i)]),
    decreases s.len() - i,
{
    if i < s.len() && is_space(s[i]) {
        lemma_nonspace_from(s, i + 1);
    }
}

/// Removal of trailing whitespace.
pub open spec fn trim_end(s: Seq<char>) -> Seq<char>
    decreases s.len(),
{
    if s.len() == 0 || !is_space(s.last()) {
        s
    } else {
        trim_end(s.drop_last())
    }
}

/// Whitespace removed from both ends.
pub open spec fn trim(s: Seq<char>) -> Seq<char> {
    trim_end(s.subrange(nonspace_from(s, 0), s.len() as int))
}

/// Trims surrounding whitespace, executable form.
pub fn trim_x(s: &Vec<char>) -> (r: Vec<char>)
    ensures
        r@ == trim(s@),
{
    let mut a: usize = 0;
    while a < s.len() && is_space_x(s[a])
        invariant
            0 <= a <= s@.len(),
            nonspace_from(s@, 0) == nonspace_from(s@, a as int),
        decreases s@.len() - a,
    {
        a = a + 1;
    }
    let mut b: usize = s.len();
    while b > a && is_space_x(s[b - 1])
        invariant
            a <= b <= s@.len(),
            trim_end(s@.subrange(a as int, s@.len() as int)) == trim_end(
                s@.subrange(a as int, b as int),
            ),
        decreases b,
    {
        proof {
            assert(s@.subrange(a as int, b as int).drop_last() =~= s@.subrange(
                a as int,
                b - 1 as int,
            ));
        }
        b = b - 1;
    }
    let mut out: Vec<char> = Vec::new();
    let mut k: usize = a;
    while k < b
        invariant
            a <= k <= b <= s@.len(),
            out@ == s@.subrange(a as int, k as int),
        decreases b - k,
    {
        out.push(s[k]);
        k = k + 1;
        proof {
            assert(out@ =~= s@.subrange(a as int, k as int));
        }
    }
    proof {
        assert(trim_end(s@.subrange(a as int, b as int)) == s@.subrange(a as int, b as int));
        assert(out@ == trim(s@));
    }
    out
}

} // verus!
