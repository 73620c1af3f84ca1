//! The typed column value domain: kinds, cell values and their ghost models.

use vstd::prelude::*;

verus! {

/// The target kind a caller may request for a column, coded 0..=3 at the
/// interface boundary (0 = String, 1 = Integer, 2 = Float, 3 = Date).
#[derive(Clone, Copy, PartialEq, Eq, Structural, Debug)]
pub enum ColumnType {
    String,
    Integer,
    Float,
    Date,
}

/// The kind a stored column actually has. `Bool` can occur in a loaded raw
/// table but is never a coercion target.
#[derive(Clone, Copy, PartialEq, Eq, Structural, Debug)]
pub enum DataKind {
    Text,
    Int,
    Float,
    Date,
    Bool,
}

/// A calendar date, no time component.
#[derive(Clone, Copy, PartialEq, Eq, Structural, Debug)]
pub struct DateVal {
    pub y: i32,
    pub m: i32,
    pub d: i32,
}

/// Fixed-point scale of a float cell: a cell holding `u` micro-units stands
/// for the number `u / 1_000_000`.
pub const FLOAT_SCALE: i128 = 1000000;

/// One cell of a column. `Float` carries micro-units (see [`FLOAT_SCALE`]).
#[derive(Clone, Debug)]
pub enum Value {
    Null,
    Text(Vec<char>),
    Int(i128),
    Float(i128),
    Date(DateVal),
    Bool(bool),
}

/// The mathematical model of a cell.
pub enum ValV {
    Null,
    Text(Seq<char>),
    Int(int),
    Float(int),
    Date(int, int, int),
    Bool(bool),
}

impl View for Value {
    type V = ValV;

    open spec fn view(&self) -> ValV {
        match self {
            Value::Null => ValV::Null,
            Value::Text(s) => ValV::Text(s@),
            Value::Int(i) => ValV::Int(*i as int),
            Value::Float(u) => ValV::Float(*u as int),
            Value::Date(d) => ValV::Date(d.y as int, d.m as int, d.d as int),
            Value::Bool(b) => ValV::Bool(*b),
        }
    }
}

impl ColumnType {
    /// The integer code of this kind at the interface boundary.
    pub fn code(&self) -> (r: i32)
        ensures
            r == self.code_spec(),
    {
        match self {
            ColumnType::String => 0,
            ColumnType::Integer => 1,
            ColumnType::Float => 2,
            ColumnType::Date => 3,
        }
    }

    pub open spec fn code_spec(&self) -> int {
        match self {
            ColumnType::String => 0,
            ColumnType::Integer => 1,
            ColumnType::Float => 2,
            ColumnType::Date => 3,
        }
    }

    /// Decodes an interface code; every unknown code means `String`.
    pub fn from_code(code: i32) -> (r: ColumnType)
        ensures
            r == ColumnType::from_code_spec(code as int),
    {
        if code == 1 {
            ColumnType::Integer
        } else if code == 2 {
            ColumnType::Float
        } else if code == 3 {
            ColumnType::Date
        } else {
            ColumnType::String
        }
    }

    pub open spec fn from_code_spec(code: int) -> ColumnType {
        if code == 1 {
            ColumnType::Integer
        } else if code == 2 {
            ColumnType::Float
        } else if code == 3 {
            ColumnType::Date
        } else {
            ColumnType::String
        }
    }
}

pub open spec fn is_leap_year(y: int) -> bool {
    y % 4 == 0 && (y % 100 != 0 || y % 400 == 0)
}

pub open spec fn days_in_month(y: int, m: int) -> int {
    if m == 2 {
        if is_leap_year(y) {
            29
        } else {
            28
        }
    } else if m == 4 || m == 6 || m == 9 || m == 11 {
        30
    } else {
        31
    }
}

pub open spec fn days_in_year(y: int) -> int {
    if is_leap_year(y) {
        366
    } else {
        365
    }
}

/// A calendar date the engine accepts: four-digit year, real month and day.
pub open spec fn valid_date(y: int, m: int, d: int) -> bool {
    0 <= y <= 9999 && 1 <= m <= 12 && 1 <= d <= days_in_month(y, m)
}

/// Days from January 1 of year `y` to the first day of month `m`.
pub open spec fn days_before_month(y: int, m: int) -> int
    decreases m,
{
    if m <= 1 {
        0
    } else {
        days_before_month(y, m - 1) + days_in_month(y, m - 1)
    }
}

/// Days from 1970-01-01 to January 1 of year `y` (negative before 1970).
pub open spec fn days_before_year(y: int) -> int
    decreases (if y >= 1970 { y - 1970 } else { 1970 - y }),
{
    if y == 1970 {
        0
    } else if y > 1970 {
        days_before_year(y - 1) + days_in_year(y - 1)
    } else {
        days_before_year(y + 1) - days_in_year(y)
    }
}

/// Days since 1970-01-01 of the date `y-m-d`.
pub open spec fn epoch_days(y: int, m: int, d: int) -> int {
    days_before_year(y) + days_before_month(y, m) + d - 1
}

proof fn lemma_dby_lower(y: int)
    requires
        y >= 1970,
    ensures
        365 * (y - 1970) <= days_before_year(y) <= 366 * (y - 1970),
    decreases y - 1970,
{
    if y > 1970 {
        lemma_dby_lower(y - 1);
    }
}

proof fn lemma_dby_upper(y: int)
    requires
        y <= 1970,
    ensures
        366 * (y - 1970) <= days_before_year(y) <= 365 * (y - 1970),
    decreases 1970 - y,
{
    if y < 1970 {
        lemma_dby_upper(y + 1);
    }
}

proof fn lemma_year_total(y: int)
    ensures
        days_before_month(y, 13) == days_in_year(y),
{
    reveal_with_fuel(days_before_month, 14);
}

pub fn days_in_month_x(y: i32, m: i32) -> (r: i32)
    requires
        0 <= y,
        1 <= m <= 12,
    ensures
        r == days_in_month(y as int, m as int),
{
    if m == 2 {
        if (y % 4 == 0 && y % 100 != 0) || y % 400 == 0 {
            29
        } else {
            28
        }
    } else if m == 4 || m == 6 || m == 9 || m == 11 {
        30
    } else {
        31
    }
}

fn days_in_year_x(y: i32) -> (r: i32)
    requires
        0 <= y,
    ensures
        r == days_in_year(y as int),
{
    if (y % 4 == 0 && y % 100 != 0) || y % 400 == 0 {
        366
    } else {
        365
    }
}

/// Days since 1970-01-01 of a valid date.
pub fn days_from_civil(dv: DateVal) -> (r: i64)
    requires
        valid_date(dv.y as int, dv.m as int, dv.d as int),
    ensures
        r == epoch_days(dv.y as int, dv.m as int, dv.d as int),
        -721100 <= r <= 2939000,
{
    proof {
        lemma_dby_lower(if dv.y >= 1970 { dv.y as int } else { 1970 });
        lemma_dby_upper(if dv.y <= 1970 { dv.y as int } else { 1970 });
        if dv.y >= 1970 {
            lemma_dby_lower(dv.y as int);
        } else {
            lemma_dby_upper(dv.y as int);
        }
    }
    let mut acc: i64 = 0;
    if dv.y >= 1970 {
        let mut cur: i32 = 1970;
        while cur < dv.y
            invariant
                1970 <= cur <= dv.y,
                dv.y <= 9999,
                acc == days_before_year(cur as int),
                0 <= acc <= 366 * (cur - 1970),
            decreases dv.y - cur,
        {
            proof {
                lemma_dby_lower(cur + 1);
            }
            acc = acc + days_in_year_x(cur) as i64;
            cur = cur + 1;
        }
    } else {
        let mut cur: i32 = 1970;
        while cur > dv.y
            invariant
                dv.y <= cur <= 1970,
                0 <= dv.y,
                acc == days_before_year(cur as int),
                366 * (cur - 1970) <= acc <= 0,
            decreases cur - dv.y,
        {
            proof {
                lemma_dby_upper(cur - 1);
            }
            acc = acc - days_in_year_x(cur - 1) as i64;
            cur = cur - 1;
        }
    }
    let mut mon: i32 = 1;
    let mut macc: i64 = 0;
    while mon < dv.m
        invariant
            1 <= mon <= dv.m <= 12,
            0 <= dv.y <= 9999,
            macc == days_before_month(dv.y as int, mon as int),
            0 <= macc <= 31 * (mon - 1),
        decreases dv.m - mon,
    {
        macc = macc + days_in_month_x(dv.y, mon) as i64;
        mon = mon + 1;
    }
    acc + macc + (dv.d - 1) as i64
}

proof fn lemma_dby_succ(y: int)
    ensures
        days_before_year(y + 1) == days_before_year(y) + days_in_year(y),
{
}

proof fn lemma_dby_mono(y1: int, y2: int)
    requires
        y1 < y2,
    ensures
        days_before_year(y1) + days_in_year(y1) <= days_before_year(y2),
    decreases y2 - y1,
{
    lemma_dby_succ(y1);
    if y1 + 1 < y2 {
        lemma_dby_mono(y1 + 1, y2);
    }
}

proof fn lemma_dbm_succ(y: int, m: int)
    requires
        m >= 1,
    ensures
        days_before_month(y, m + 1) == days_before_month(y, m) + days_in_month(y, m),
{
}

proof fn lemma_dbm_mono(y: int, m1: int, m2: int)
    requires
        1 <= m1 < m2,
    ensures
        days_before_month(y, m1) + days_in_month(y, m1) <= days_before_month(y, m2),
    decreases m2 - m1,
{
    lemma_dbm_succ(y, m1);
    if m1 + 1 < m2 {
        lemma_dbm_mono(y, m1 + 1, m2);
    }
}

/// The day-of-year offset of a valid date stays within its year.
proof fn lemma_doy_bounds(y: int, m: int, d: int)
    requires
        valid_date(y, m, d),
    ensures
        0 <= days_before_month(y, m) + d - 1 < days_in_year(y),
{
    lemma_year_total(y);
    if m < 12 {
        lemma_dbm_mono(y, m, 13);
    } else {
        lemma_dbm_succ(y, 12);
    }
    if m > 1 {
        lemma_dbm_mono(y, 1, m);
    }
}

/// No two valid dates share a day number.
pub proof fn lemma_epoch_days_injective(y1: int, m1: int, d1: int, y2: int, m2: int, d2: int)
    requires
        valid_date(y1, m1, d1),
        valid_date(y2, m2, d2),
        epoch_days(y1, m1, d1) == epoch_days(y2, m2, d2),
    ensures
        y1 == y2 && m1 == m2 && d1 == d2,
{
    lemma_doy_bounds(y1, m1, d1);
    lemma_doy_bounds(y2, m2, d2);
    if y1 < y2 {
        lemma_dby_mono(y1, y2);
        assert(false);
    } else if y2 < y1 {
        lemma_dby_mono(y2, y1);
        assert(false);
    }
    if m1 < m2 {
        lemma_dbm_mono(y1, m1, m2);
        assert(false);
    } else if m2 < m1 {
        lemma_dbm_mono(y1, m2, m1);
        assert(false);
    }
}

/// The valid date with day number `days`, as a mathematical function.
pub open spec fn date_from_days(days: int) -> (int, int, int) {
    choose|p: (int, int, int)| valid_date(p.0, p.1, p.2) && epoch_days(p.0, p.1, p.2) == days
}

/// The valid date lying `days` days after 1970-01-01 (before it if negative).
pub fn civil_from_days(days: i64) -> (r: DateVal)
    requires
        -100000 <= days <= 100000,
    ensures
        valid_date(r.y as int, r.m as int, r.d as int),
        epoch_days(r.y as int, r.m as int, r.d as int) == days,
        1600 <= r.y <= 2300,
{
    let mut y: i32 = 1970;
    let mut rem: i64 = days;
    if days >= 0 {
        let mut diy: i32 = days_in_year_x(y);
        while rem >= diy as i64
            invariant
                1970 <= y <= 2245,
                days_before_year(y as int) + rem == days,
                0 <= rem <= 100000,
                365 * (y - 1970) <= days <= 100000,
                diy == days_in_year(y as int),
            decreases rem,
        {
            proof {
                lemma_dby_lower(y as int);
                lemma_dby_lower(y + 1);
            }
            rem = rem - diy as i64;
            y = y + 1;
            diy = days_in_year_x(y);
        }
    } else {
        while rem < 0
            invariant
                1600 <= y <= 1970,
                days_before_year(y as int) + rem == days,
                rem < days_in_year(y as int),
                -100000 <= days < 0,
            decreases y - 1500,
        {
            proof {
                lemma_dby_upper(y - 1);
            }
            let diy = days_in_year_x(y - 1);
            rem = rem + diy as i64;
            y = y - 1;
        }
    }
    proof {
        if y >= 1970 {
            lemma_dby_lower(y as int);
        } else {
            lemma_dby_upper(y as int);
        }
    }
    let mut m: i32 = 1;
    let mut dim: i32 = days_in_month_x(y, m);
    while m < 12 && rem >= dim as i64
        invariant
            1 <= m <= 12,
            1600 <= y <= 2300,
            days_before_year(y as int) + days_before_month(y as int, m as int) + rem == days,
            0 <= rem < days_in_year(y as int) - days_before_month(y as int, m as int),
            dim == days_in_month(y as int, m as int),
        decreases 12 - m,
    {
        rem = rem - dim as i64;
        m = m + 1;
        dim = days_in_month_x(y, m);
    }
    proof {
        lemma_year_total(y as int);
        if m == 12 {
            assert(days_before_month(y as int, 13) == days_before_month(y as int, 12)
                + days_in_month(y as int, 12));
        }
    }
    DateVal { y, m, d: (rem + 1) as i32 }
}

/// As [`civil_from_days`], pinned to the mathematical [`date_from_days`].
pub fn date_of_days(days: i64) -> (r: DateVal)
    requires
        -100000 <= days <= 100000,
    ensures
        valid_date(r.y as int, r.m as int, r.d as int),
        (r.y as int, r.m as int, r.d as int) == date_from_days(days as int),
        1600 <= r.y <= 2300,
{
    let r = civil_from_days(days);
    proof {
        let p = date_from_days(days as int);
        assert(valid_date(p.0, p.1, p.2) && epoch_days(p.0, p.1, p.2) == days) by {
            let w = (r.y as int, r.m as int, r.d as int);
            assert(valid_date(w.0, w.1, w.2) && epoch_days(w.0, w.1, w.2) == days);
        }
        lemma_epoch_days_injective(r.y as int, r.m as int, r.d as int, p.0, p.1, p.2);
    }
    r
}

/// The failures the engine can report. Cell parsing never fails — it
/// resolves to a missing value or a sentinel — so these cover only the
/// whole-call errors.
#[derive(Debug)]
pub enum EngineError {
    /// A raw column has no entry in the type mapping; carries the name.
    MissingMapping(Vec<char>),
    /// A coercion met a value no rule covers, such as a matched date layout
    /// naming an impossible calendar day.
    UnsupportedCoercion,
    /// The declared but unimplemented rate aggregation was requested.
    NotImplemented,
    /// A named column does not exist.
    NotFound,
    /// An aggregation mode was applied to a column kind it cannot aggregate.
    UnsupportedMetric,
    /// Malformed delimited text: empty input, repeated header names or a
    /// record of the wrong width.
    BadInput,
}

/// The mathematical model of an engine error.
pub enum ErrV {
    MissingMapping(Seq<char>),
    UnsupportedCoercion,
    NotImplemented,
    NotFound,
    UnsupportedMetric,
    BadInput,
}

impl View for EngineError {
    type V = ErrV;

    open spec fn view(&self) -> ErrV {
        match self {
            EngineError::MissingMapping(n) => ErrV::MissingMapping(n@),
            EngineError::UnsupportedCoercion => ErrV::UnsupportedCoercion,
            EngineError::NotImplemented => ErrV::NotImplemented,
            EngineError::NotFound => ErrV::NotFound,
            EngineError::UnsupportedMetric => ErrV::UnsupportedMetric,
            EngineError::BadInput => ErrV::BadInput,
        }
    }
}

impl EngineError {
    /// A short description, for the caller's presentation layer.
    pub fn describe(&self) -> (r: &'static str) {
        match self {
            EngineError::MissingMapping(_) => "a column is missing from the type mapping",
            EngineError::UnsupportedCoercion => "a value admits no coercion rule",
            EngineError::NotImplemented => "the rate aggregation is not implemented",
            EngineError::NotFound => "no column has that name",
            EngineError::UnsupportedMetric => "that aggregation does not fit the column kind",
            EngineError::BadInput => "the delimited text is malformed",
        }
    }
}

} // verus!
