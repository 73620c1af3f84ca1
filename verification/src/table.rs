//! The in-memory columnar table: named, homogeneously typed columns of
//! equal length.

use vstd::prelude::*;

use crate::value::ColumnType;
use crate::value::DataKind;
use crate::value::DateVal;
use crate::value::ValV;
use crate::value::Value;
use crate::value::valid_date;

verus! {

/// Micro-unit magnitude bound of float cells in loaded and normalized
/// tables: 2^31 whole units.
pub const UNITS_BOUND: i128 = 2147483648000000;

/// One named column.
#[derive(Debug)]
pub struct Column {
    pub name: Vec<char>,
    pub kind: DataKind,
    pub cells: Vec<Value>,
}

/// The mathematical model of a column.
pub struct ColV {
    pub name: Seq<char>,
    pub kind: DataKind,
    pub cells: Seq<ValV>,
}

/// The models of a sequence of cells.
pub open spec fn cellseq(cs: Seq<Value>) -> Seq<ValV> {
    Seq::new(cs.len(), |i: int| cs[i]@)
}

impl View for Column {
    type V = ColV;

    open spec fn view(&self) -> ColV {
        ColV { name: self.name@, kind: self.kind, cells: cellseq(self.cells@) }
    }
}

/// An ordered sequence of named columns; may be empty.
#[derive(Debug)]
pub struct Table {
    pub cols: Vec<Column>,
}

/// The models of a sequence of columns.
pub open spec fn colseq(cs: Seq<Column>) -> Seq<ColV> {
    Seq::new(cs.len(), |i: int| cs[i]@)
}

impl View for Table {
    type V = Seq<ColV>;

    open spec fn view(&self) -> Seq<ColV> {
        colseq(self.cols@)
    }
}

/// A cell agrees with its column's kind; dates are real calendar dates.
pub open spec fn cell_ok(k: DataKind, v: ValV) -> bool {
    match v {
        ValV::Null => true,
        ValV::Text(_) => k == DataKind::Text,
        ValV::Int(_) => k == DataKind::Int,
        ValV::Float(_) => k == DataKind::Float,
        ValV::Date(y, m, d) => k == DataKind::Date && valid_date(y, m, d),
        ValV::Bool(_) => k == DataKind::Bool,
    }
}

/// Numeric cells of loaded and normalized tables stay within the 32-bit
/// magnitude the readers produce, so aggregation sums cannot overflow.
pub open spec fn cell_bounded(v: ValV) -> bool {
    match v {
        ValV::Int(n) => -0x80000000 <= n <= 0x7fffffff,
        ValV::Float(u) => -(UNITS_BOUND as int) <= u <= UNITS_BOUND as int,
        _ => true,
    }
}

pub open spec fn wf_col(c: ColV) -> bool {
    forall|i: int| 0 <= i < c.cells.len() ==> cell_ok(c.kind, #[trigger] c.cells[i])
}

pub open spec fn bounded_col(c: ColV) -> bool {
    forall|i: int| 0 <= i < c.cells.len() ==> cell_bounded(#[trigger] c.cells[i])
}

/// The row count: the length shared by all columns.
pub open spec fn table_rows(t: Seq<ColV>) -> int {
    if t.len() == 0 {
        0
    } else {
        t[0].cells.len() as int
    }
}

/// Well-formed table: unique column names, equal column lengths, cells
/// agreeing with their column kinds.
pub open spec fn wf_table(t: Seq<ColV>) -> bool {
    (forall|i: int|
        0 <= i < t.len() ==> wf_col(#[trigger] t[i]) && t[i].cells.len() == table_rows(t))
        && (forall|i: int, j: int| 0 <= i < j < t.len() ==> t[i].name != t[j].name)
}

pub open spec fn bounded_table(t: Seq<ColV>) -> bool {
    forall|i: int| 0 <= i < t.len() ==> bounded_col(#[trigger] t[i])
}

/// The index of the column called `name`.
pub open spec fn find_col_from(t: Seq<ColV>, name: Seq<char>, i: int) -> Option<int>
    decreases t.len() - i,
{
    if i < 0 || i >= t.len() {
        None
    } else if t[i].name == name {
        Some(i)
    } else {
        find_col_from(t, name, i + 1)
    }
}

pub open spec fn find_col(t: Seq<ColV>, name: Seq<char>) -> Option<int> {
    find_col_from(t, name, 0)
}

/// Copies a character sequence.
pub fn dup_chars(s: &Vec<char>) -> (r: Vec<char>)
    ensures
        r@ == s@,
{
    let mut out: Vec<char> = Vec::new();
    let mut k: usize = 0;
    while k < s.len()
        invariant
            0 <= k <= s@.len(),
            out@ == s@.take(k as int),
        decreases s@.len() - k,
    {
        out.push(s[k]);
        k = k + 1;
        proof {
            assert(out@ =~= s@.take(k as int));
        }
    }
    proof {
        assert(s@.take(s@.len() as int) =~= s@);
    }
    out
}

/// Compares two character sequences.
pub fn chars_eq(a: &Vec<char>, b: &Vec<char>) -> (r: bool)
    ensures
        r == (a@ == b@),
{
    if a.len() != b.len() {
        proof {
            assert(a@ != b@) by {
                assert(a@.len() != b@.len());
            }
        }
        return false;
    }
    let mut k: usize = 0;
    while k < a.len()
        invariant
            0 <= k <= a@.len(),
            a@.len() == b@.len(),
            forall|j: int| 0 <= j < k ==> a@[j] == b@[j],
        decreases a@.len() - k,
    {
        if a[k] != b[k] {
            return false;
        }
        k = k + 1;
    }
    proof {
        assert(a@ =~= b@);
    }
    true
}

impl Value {
    /// A copy of this cell.
    pub fn dup(&self) -> (r: Value)
        ensures
            r@ == self@,
    {
        match self {
            Value::Null => Value::Null,
            Value::Text(s) => Value::Text(dup_chars(s)),
            Value::Int(n) => Value::Int(*n),
            Value::Float(u) => Value::Float(*u),
            Value::Date(d) => Value::Date(*d),
            Value::Bool(b) => Value::Bool(*b),
        }
    }

    /// Whether this cell is missing.
    pub fn is_null(&self) -> (r: bool)
        ensures
            r == (self@ is Null),
    {
        match self {
            Value::Null => true,
            _ => false,
        }
    }
}

/// Equality of cell values, as their models compare.
pub fn val_eq(a: &Value, b: &Value) -> (r: bool)
    ensures
        r == (a@ == b@),
{
    match (a, b) {
        (Value::Null, Value::Null) => true,
        (Value::Text(x), Value::Text(y)) => chars_eq(x, y),
        (Value::Int(x), Value::Int(y)) => x == y,
        (Value::Float(x), Value::Float(y)) => x == y,
        (Value::Date(x), Value::Date(y)) => x.y == y.y && x.m == y.m && x.d == y.d,
        (Value::Bool(x), Value::Bool(y)) => x == y,
        _ => false,
    }
}

impl Column {
    /// A copy of this column.
    pub fn dup(&self) -> (r: Column)
        ensures
            r@ == self@,
    {
        let mut cells: Vec<Value> = Vec::new();
        let mut k: usize = 0;
        while k < self.cells.len()
            invariant
                0 <= k <= self.cells@.len(),
                cells@.len() == k,
                forall|j: int| 0 <= j < k ==> cells@[j]@ == self.cells@[j]@,
            decreases self.cells@.len() - k,
        {
            cells.push(self.cells[k].dup());
            k = k + 1;
        }
        let r = Column { name: dup_chars(&self.name), kind: self.kind, cells };
        proof {
            assert(r@.cells =~= self@.cells);
            assert(r@ == self@) by {
                assert(r@.name == self@.name && r@.kind == self@.kind && r@.cells == self@.cells);
            }
        }
        r
    }
}

impl Table {
    /// The empty table: no columns, no rows.
    pub fn new() -> (r: Table)
        ensures
            r@.len() == 0,
            wf_table(r@),
            bounded_table(r@),
    {
        Table { cols: Vec::new() }
    }

    /// A copy of this table.
    pub fn dup(&self) -> (r: Table)
        ensures
            r@ == self@,
    {
        let mut cols: Vec<Column> = Vec::new();
        let mut k: usize = 0;
        while k < self.cols.len()
            invariant
                0 <= k <= self.cols@.len(),
                cols@.len() == k,
                forall|j: int| 0 <= j < k ==> cols@[j]@ == self.cols@[j]@,
            decreases self.cols@.len() - k,
        {
            cols.push(self.cols[k].dup());
            k = k + 1;
        }
        let r = Table { cols };
        proof {
            assert(r@ =~= self@);
        }
        r
    }

    /// The number of rows.
    pub fn row_count(&self) -> (r: usize)
        ensures
            r == table_rows(self@),
    {
        if self.cols.len() == 0 {
            0
        } else {
            self.cols[0].cells.len()
        }
    }

    /// The index of the column called `name`, if any.
    pub fn col_index(&self, name: &Vec<char>) -> (r: Option<usize>)
        ensures
            match r {
                Some(i) => find_col(self@, name@) == Some(i as int) && i < self@.len()
                    && self@[i as int].name == name@,
                None => find_col(self@, name@) is None,
            },
    {
        let mut i: usize = 0;
        while i < self.cols.len()
            invariant
                0 <= i <= self.cols@.len(),
                find_col_from(self@, name@, 0) == find_col_from(self@, name@, i as int),
            decreases self.cols@.len() - i,
        {
            if chars_eq(&self.cols[i].name, name) {
                return Some(i);
            }
            i = i + 1;
        }
        None
    }

    /// Rows `[start, start+limit)`, both ends clamped to the table: a start
    /// at or past the row count gives an empty row set, never an error.
    pub fn slice(&self, start: usize, limit: usize) -> (r: Table)
        requires
            wf_table(self@),
        ensures
            r@.len() == self@.len(),
            wf_table(r@),
            forall|i: int|
                0 <= i < self@.len() ==> (#[trigger] r@[i]).name == self@[i].name && r@[i].kind
                    == self@[i].kind && r@[i].cells == self@[i].cells.subrange(
                    slice_lo(self@, start as int),
                    slice_hi(self@, start as int, limit as int),
                ),
            table_rows(r@) == slice_hi(self@, start as int, limit as int) - slice_lo(
                self@,
                start as int,
            ),
            bounded_table(self@) ==> bounded_table(r@),
    {
        let rows = self.row_count();
        let lo: usize = if start >= rows {
            rows
        } else {
            start
        };
        let hi: usize = if limit >= rows - lo {
            rows
        } else {
            lo + limit
        };
        let mut cols: Vec<Column> = Vec::new();
        let mut k: usize = 0;
        while k < self.cols.len()
            invariant
                0 <= k <= self.cols@.len(),
                cols@.len() == k,
                lo == slice_lo(self@, start as int),
                hi == slice_hi(self@, start as int, limit as int),
                lo <= hi <= table_rows(self@),
                wf_table(self@),
                forall|j: int|
                    0 <= j < k ==> (#[trigger] cols@[j]@).name == self@[j].name && cols@[j]@.kind
                        == self@[j].kind && cols@[j]@.cells == self@[j].cells.subrange(
                        lo as int,
                        hi as int,
                    ),
            decreases self.cols@.len() - k,
        {
            let src = &self.cols[k];
            proof {
                assert(wf_col(self@[k as int]) && self@[k as int].cells.len() == table_rows(
                    self@,
                ));
            }
            let mut cells: Vec<Value> = Vec::new();
            let mut t: usize = lo;
            while t < hi
                invariant
                    lo <= t <= hi,
                    k < self.cols@.len(),
                    hi <= self.cols@[k as int].cells@.len(),
                    cells@.len() == t - lo,
                    forall|j: int|
                        0 <= j < t - lo ==> cells@[j]@ == self.cols@[k as int].cells@[lo + j]@,
                decreases hi - t,
            {
                cells.push(self.cols[k].cells[t].dup());
                t = t + 1;
            }
            cols.push(Column { name: dup_chars(&src.name), kind: src.kind, cells });
            k = k + 1;
            proof {
                assert(cols@[k - 1]@.cells =~= self@[k - 1].cells.subrange(lo as int, hi as int));
            }
        }
        let r = Table { cols };
        proof {
            assert(forall|i: int|
                0 <= i < self@.len() ==> (#[trigger] r@[i]).name == self@[i].name && r@[i].kind
                    == self@[i].kind && r@[i].cells == self@[i].cells.subrange(
                    lo as int,
                    hi as int,
                ));
        }
        r
    }

    /// The first `n` rows.
    pub fn head(&self, n: usize) -> (r: Table)
        requires
            wf_table(self@),
        ensures
            r@.len() == self@.len(),
            wf_table(r@),
            forall|i: int|
                0 <= i < self@.len() ==> (#[trigger] r@[i]).name == self@[i].name && r@[i].kind
                    == self@[i].kind && r@[i].cells == self@[i].cells.subrange(
                    0,
                    slice_hi(self@, 0, n as int),
                ),
    {
        self.slice(0, n)
    }
}

/// The clamped lower row bound of a slice.
pub open spec fn slice_lo(t: Seq<ColV>, start: int) -> int {
    if start >= table_rows(t) {
        table_rows(t)
    } else {
        start
    }
}

/// The clamped upper row bound of a slice.
pub open spec fn slice_hi(t: Seq<ColV>, start: int, limit: int) -> int {
    if slice_lo(t, start) + limit >= table_rows(t) {
        table_rows(t)
    } else {
        slice_lo(t, start) + limit
    }
}

} // verus!
