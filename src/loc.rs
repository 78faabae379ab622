//! Grid coordinates.
use vstd::prelude::*;

verus! {

/// The index of the box that holds the cell at (`row`, `col`), all 1-based,
/// in a grid made of `size x size` boxes.
pub open spec fn box_of(row: int, col: int, size: int) -> int {
    ((row - 1) / size) * size + (col - 1) / size + 1
}

/// `a` comes strictly before `b`, row by row: the order of `Loc`.
pub open spec fn before(a: Loc, b: Loc) -> bool {
    a.row < b.row || (a.row == b.row && a.col < b.col)
}

/// `s` lists the cell at (`row`, `col`).
pub open spec fn lists_cell(s: Seq<Loc>, row: int, col: int) -> bool {
    exists|m: int| 0 <= m < s.len() && (#[trigger] s[m]).row == row && s[m].col == col
}

/// A (row, column) position in the grid, both counted from 1.
#[derive(Debug, Copy, Clone, PartialEq, Eq, Structural, PartialOrd, Ord, Hash)]
pub struct Loc {
    pub row: u8,
    pub col: u8,
}

impl Loc {
    /// Whether both coordinates lie in `1..=top`.
    pub open spec fn in_grid(self, top: int) -> bool {
        1 <= self.row <= top && 1 <= self.col <= top
    }

    pub fn new(row: u8, col: u8) -> (r: Self)
        ensures
            r.row == row,
            r.col == col,
    {
        Self { row, col }
    }

    /// The 1-based index of the box that holds this cell.
    pub fn sqr(&self, size: u8) -> (r: u8)
        requires
            1 <= self.row,
            1 <= self.col,
            1 <= size,
            box_of(self.row as int, self.col as int, size as int) <= u8::MAX,
        ensures
            r == box_of(self.row as int, self.col as int, size as int),
    {
        let a: u8 = (self.row - 1) / size;
        let b: u8 = (self.col - 1) / size;
        proof {
            lemma_box_parts(self.row as int, self.col as int, size as int);
        }
        a * size + b + 1
    }
}

proof fn lemma_box_parts(row: int, col: int, size: int)
    requires
        1 <= row,
        1 <= col,
        1 <= size,
    ensures
        0 <= ((row - 1) / size) * size <= box_of(row, col, size) - 1,
        0 <= (col - 1) / size,
{
    assert(0 <= (row - 1) / size) by (nonlinear_arith)
        requires 0 <= row - 1, 1 <= size;
    assert(0 <= (col - 1) / size) by (nonlinear_arith)
        requires 0 <= col - 1, 1 <= size;
    assert(0 <= ((row - 1) / size) * size) by (nonlinear_arith)
        requires 0 <= (row - 1) / size, 1 <= size;
}

/// A grid that holds a cell has boxes of side at least 1.
pub proof fn lemma_size_pos(size: int)
    requires
        0 <= size,
        1 <= size * size,
    ensures
        1 <= size,
{
    if size == 0 {
        assert(size * size == 0);
    }
}

/// Between two consecutive squares there is no square.
pub proof fn lemma_square_unique(n: int, m: int, len: int)
    requires
        0 <= n,
        0 <= m,
        n * n <= len < (n + 1) * (n + 1),
        m * m == len,
    ensures
        m == n,
{
    if m < n {
        assert(m * m < n * n) by (nonlinear_arith)
            requires 0 <= m < n;
    } else if m > n {
        assert(m * m >= (n + 1) * (n + 1)) by (nonlinear_arith)
            requires 0 <= n, n + 1 <= m;
    }
}

/// A box index lies in `1..=size * size` for every cell of the grid.
pub proof fn lemma_box_in_grid(row: int, col: int, size: int)
    requires
        1 <= size,
        1 <= row <= size * size,
        1 <= col <= size * size,
    ensures
        1 <= box_of(row, col, size) <= size * size,
{
    lemma_box_parts(row, col, size);
    let q = (row - 1) / size;
    let p = (col - 1) / size;
    assert(q < size) by (nonlinear_arith)
        requires 0 <= row - 1 < size * size, 1 <= size, q == (row - 1) / size;
    assert(p < size) by (nonlinear_arith)
        requires 0 <= col - 1 < size * size, 1 <= size, p == (col - 1) / size;
    assert(q * size + p + 1 <= size * size) by (nonlinear_arith)
        requires 0 <= q < size, 0 <= p < size;
}

impl From<(u8, u8)> for Loc {
    fn from(other: (u8, u8)) -> (r: Self) {
        Self::new(other.0, other.1)
    }
}

impl vstd::std_specs::convert::FromSpecImpl<(u8, u8)> for Loc {
    open spec fn obeys_from_spec() -> bool {
        true
    }

    open spec fn from_spec(v: (u8, u8)) -> Loc {
        Loc { row: v.0, col: v.1 }
    }
}

impl From<Loc> for (u8, u8) {
    fn from(other: Loc) -> (r: (u8, u8)) {
        (other.row, other.col)
    }
}

impl vstd::std_specs::convert::FromSpecImpl<Loc> for (u8, u8) {
    open spec fn obeys_from_spec() -> bool {
        true
    }

    open spec fn from_spec(v: Loc) -> (u8, u8) {
        (v.row, v.col)
    }
}

} // verus!
