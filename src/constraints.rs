//! The three line trackers of a grid: rows, columns and boxes.
use vstd::prelude::*;
use crate::checker::{ValChecker, mark, square_table, lemma_mark_square};
use crate::loc::{Loc, box_of, lemma_box_in_grid};

verus! {

/// Tracks, for every row, column and box, which values are used on it.
#[derive(Debug, PartialEq, Clone)]
pub struct Verifier {
    pub size: u8,
    pub rows: ValChecker,
    pub cols: ValChecker,
    pub sqrs: ValChecker,
}

impl Verifier {
    /// The side of the grid.
    pub open spec fn top(&self) -> int {
        self.size * self.size
    }

    pub open spec fn wf(&self) -> bool {
        &&& self.top() <= u8::MAX
        &&& square_table(self.rows@, self.top())
        &&& square_table(self.cols@, self.top())
        &&& square_table(self.sqrs@, self.top())
    }

    /// The box that holds `loc`.
    pub open spec fn box_at(&self, loc: Loc) -> int {
        box_of(loc.row as int, loc.col as int, self.size as int)
    }

    /// The candidates at `loc`: the values of `1..=top` that are free there, ascending.
    pub open spec fn candidates(&self, loc: Loc) -> Seq<u8> {
        free_upto(self.rows@, self.cols@, self.sqrs@, self.size as int, loc, self.top())
    }

    pub fn new(size: u8) -> (r: Self)
        requires
            size * size <= u8::MAX,
        ensures
            r.wf(),
            r.size == size,
            forall|i: int, j: int|
                0 <= i < size * size && 0 <= j < size * size ==> {
                    &&& !#[trigger] r.rows@[i][j]
                    &&& !r.cols@[i][j]
                    &&& !r.sqrs@[i][j]
                },
    {
        let top = size * size;
        Self {
            size,
            rows: ValChecker::new(top),
            cols: ValChecker::new(top),
            sqrs: ValChecker::new(top),
        }
    }

    /// A copy of the three tables.
    pub(crate) fn copy(&self) -> (r: Self)
        ensures
            r.size == self.size,
            r.rows@ == self.rows@,
            r.cols@ == self.cols@,
            r.sqrs@ == self.sqrs@,
    {
        Self { size: self.size, rows: self.rows.copy(), cols: self.cols.copy(), sqrs: self.sqrs.copy() }
    }

    /// Marks `val` as used in the row, the column and the box of `loc`.
    pub fn set(&mut self, loc: &Loc, val: u8)
        requires
            old(self).wf(),
            loc.in_grid(old(self).top()),
            1 <= val <= old(self).top(),
        ensures
            final(self).wf(),
            final(self).size == old(self).size,
            final(self).rows@ == mark(old(self).rows@, loc.row as int, val as int, true),
            final(self).cols@ == mark(old(self).cols@, loc.col as int, val as int, true),
            final(self).sqrs@ == mark(old(self).sqrs@, old(self).box_at(*loc), val as int, true),
    {
        proof {
            lemma_box_in_grid(loc.row as int, loc.col as int, self.size as int);
        }
        let b = loc.sqr(self.size);
        self.rows.set(loc.row, val);
        self.cols.set(loc.col, val);
        self.sqrs.set(b, val);
        proof {
            lemma_mark_square(old(self).rows@, self.top(), loc.row as int, val as int, true);
            lemma_mark_square(old(self).cols@, self.top(), loc.col as int, val as int, true);
            lemma_mark_square(old(self).sqrs@, self.top(), b as int, val as int, true);
        }
    }

    /// Marks `val` as unused in the row, the column and the box of `loc`.
    pub fn unset(&mut self, loc: &Loc, val: u8)
        requires
            old(self).wf(),
            loc.in_grid(old(self).top()),
            1 <= val <= old(self).top(),
        ensures
            final(self).wf(),
            final(self).size == old(self).size,
            final(self).rows@ == mark(old(self).rows@, loc.row as int, val as int, false),
            final(self).cols@ == mark(old(self).cols@, loc.col as int, val as int, false),
            final(self).sqrs@ == mark(old(self).sqrs@, old(self).box_at(*loc), val as int, false),
    {
        proof {
            lemma_box_in_grid(loc.row as int, loc.col as int, self.size as int);
        }
        let b = loc.sqr(self.size);
        self.rows.unset(loc.row, val);
        self.cols.unset(loc.col, val);
        self.sqrs.unset(b, val);
        proof {
            lemma_mark_square(old(self).rows@, self.top(), loc.row as int, val as int, false);
            lemma_mark_square(old(self).cols@, self.top(), loc.col as int, val as int, false);
            lemma_mark_square(old(self).sqrs@, self.top(), b as int, val as int, false);
        }
    }

    /// Whether every value is used on every row, every column and every box.
    pub fn is_solved(&self) -> (r: bool)
        ensures
            r == self.all_used(),
    {
        self.rows.is_solved() && self.cols.is_solved() && self.sqrs.is_solved()
    }

    pub open spec fn all_used(&self) -> bool {
        &&& crate::checker::all_marked(self.rows@)
        &&& crate::checker::all_marked(self.cols@)
        &&& crate::checker::all_marked(self.sqrs@)
    }

    /// The values still legal at `loc`, ascending.
    pub fn available_values(&self, loc: &Loc) -> (r: Vec<u8>)
        requires
            self.wf(),
            loc.in_grid(self.top()),
        ensures
            r@ == self.candidates(*loc),
    {
        proof {
            lemma_box_in_grid(loc.row as int, loc.col as int, self.size as int);
        }
        let rows = self.rows.available_values(loc.row);
        let cols = self.cols.available_values(loc.col);
        let sqrs = self.sqrs.available_values(loc.sqr(self.size));
        let top = self.size as usize * self.size as usize;
        let mut r: Vec<u8> = Vec::new();
        let mut j: usize = 0;
        while j < top
            invariant
                j <= top,
                top == self.top(),
                self.wf(),
                loc.in_grid(self.top()),
                1 <= self.box_at(*loc) <= self.top(),
                rows@.len() == top,
                cols@.len() == top,
                sqrs@.len() == top,
                forall|m: int| 0 <= m < top ==> #[trigger] rows@[m] == if self.rows@[loc.row - 1][m] {
                    None
                } else {
                    Some((m + 1) as u8)
                },
                forall|m: int| 0 <= m < top ==> #[trigger] cols@[m] == if self.cols@[loc.col - 1][m] {
                    None
                } else {
                    Some((m + 1) as u8)
                },
                forall|m: int| 0 <= m < top ==> #[trigger] sqrs@[m] == if self.sqrs@[self.box_at(*loc) - 1][m] {
                    None
                } else {
                    Some((m + 1) as u8)
                },
                r@ == free_upto(self.rows@, self.cols@, self.sqrs@, self.size as int, *loc, j as int),
            decreases top - j,
        {
            if rows[j].is_some() && cols[j].is_some() && sqrs[j].is_some() {
                r.push((j + 1) as u8);
            }
            j = j + 1;
        }
        r
    }
}

/// `v` is unused in the row, the column and the box of `loc`, as the three
/// tables say.
pub open spec fn free(
    rows: Seq<Seq<bool>>,
    cols: Seq<Seq<bool>>,
    sqrs: Seq<Seq<bool>>,
    size: int,
    loc: Loc,
    v: int,
) -> bool {
    &&& !rows[loc.row - 1][v - 1]
    &&& !cols[loc.col - 1][v - 1]
    &&& !sqrs[box_of(loc.row as int, loc.col as int, size) - 1][v - 1]
}

/// The values of `1..=k` that are free at `loc`, ascending.
pub open spec fn free_upto(
    rows: Seq<Seq<bool>>,
    cols: Seq<Seq<bool>>,
    sqrs: Seq<Seq<bool>>,
    size: int,
    loc: Loc,
    k: int,
) -> Seq<u8>
    decreases k,
{
    if k <= 0 {
        Seq::empty()
    } else if free(rows, cols, sqrs, size, loc, k) {
        free_upto(rows, cols, sqrs, size, loc, k - 1).push(k as u8)
    } else {
        free_upto(rows, cols, sqrs, size, loc, k - 1)
    }
}

/// A value is in `free_upto(.., k)` exactly when it lies in `1..=k` and is free.
pub proof fn lemma_free_upto(
    rows: Seq<Seq<bool>>,
    cols: Seq<Seq<bool>>,
    sqrs: Seq<Seq<bool>>,
    size: int,
    loc: Loc,
    k: int,
)
    requires
        k <= u8::MAX,
    ensures
        free_upto(rows, cols, sqrs, size, loc, k).len() <= if k <= 0 { 0 } else { k },
        forall|j: int|
            0 <= j < free_upto(rows, cols, sqrs, size, loc, k).len() ==> {
                let v = #[trigger] free_upto(rows, cols, sqrs, size, loc, k)[j];
                &&& 1 <= v <= k
                &&& free(rows, cols, sqrs, size, loc, v as int)
            },
        forall|v: int|
            1 <= v <= k && free(rows, cols, sqrs, size, loc, v) ==> free_upto(
                rows,
                cols,
                sqrs,
                size,
                loc,
                k,
            ).contains(v as u8),
    decreases k,
{
    if k > 0 {
        lemma_free_upto(rows, cols, sqrs, size, loc, k - 1);
        let prev = free_upto(rows, cols, sqrs, size, loc, k - 1);
        let cur = free_upto(rows, cols, sqrs, size, loc, k);
        assert forall|v: int|
            1 <= v <= k && free(rows, cols, sqrs, size, loc, v) implies cur.contains(v as u8) by {
            if v < k {
                let j = choose|j: int| 0 <= j < prev.len() && prev[j] == v as u8;
                assert(cur[j] == v as u8);
            } else {
                assert(cur[cur.len() - 1] == v as u8);
            }
        }
    }
}

} // verus!
