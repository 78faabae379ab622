//! The grid: cell values kept in step with the three line trackers.
use vstd::prelude::*;
use crate::checker::ValChecker;
use crate::constraints::Verifier;
use crate::grid::{
    BoardState, val, put, lemma_put_wf, lemma_put_put, lemma_lists_empties_step, grid_wf, empty_distinct,
    listed, filled_as, lemma_empty_distinct_step, lemma_filled, lemma_lists_empties_distinct,
    conflict_free, line_has, line_of, full, extends, solution_of, solvable, lists_empties, entries_ok,
    keys_distinct, keys_cover, names, rows_view, square_grid,
};
use crate::loc::{Loc, before, lists_cell, lemma_square_unique};

verus! {

/// A refused placement: `value` is not a candidate at `loc`.
#[derive(Debug, Copy, Clone, PartialEq, Eq, Structural)]
pub struct Conflict {
    pub value: u8,
    pub loc: Loc,
}

/// Whether `x` is among `v`.
fn contains(v: &Vec<u8>, x: u8) -> (r: bool)
    ensures
        r == v@.contains(x),
{
    let mut j: usize = 0;
    while j < v.len()
        invariant
            0 <= j <= v@.len(),
            forall|m: int| 0 <= m < j ==> v@[m] != x,
        decreases v@.len() - j,
    {
        if v[j] == x {
            return true;
        }
        j = j + 1;
    }
    false
}

/// A Sudoku grid of `size x size` boxes, `top = size * size` cells a side.
/// `values[row - 1][col - 1]` holds the cell at (`row`, `col`).
#[derive(Debug, PartialEq, Clone)]
pub struct Board {
    size: u8,
    top: u8,
    values: Vec<Vec<Option<u8>>>,
    verification: Verifier,
}

impl View for Board {
    type V = BoardState;

    closed spec fn view(&self) -> BoardState {
        BoardState {
            size: self.size as int,
            grid: self.values@.map_values(|r: Vec<Option<u8>>| r@),
            rows: self.verification.rows@,
            cols: self.verification.cols@,
            sqrs: self.verification.sqrs@,
        }
    }
}

impl Board {
    /// The model is well formed and the fields agree with it.
    pub open spec fn wf(&self) -> bool {
        &&& self@.wf()
        &&& self.fields_agree()
    }

    /// The stored side and the trackers' box size agree with the box size.
    pub closed spec fn fields_agree(&self) -> bool {
        &&& self.top as int == self.size * self.size
        &&& self.verification.size == self.size
    }

    fn empty_rows(top: u8) -> (r: Vec<Vec<Option<u8>>>)
        ensures
            r@.len() == top,
            forall|i: int| 0 <= i < top ==> #[trigger] r@[i]@.len() == top,
            forall|i: int, k: int| 0 <= i < top && 0 <= k < top ==> #[trigger] r@[i]@[k] is None,
    {
        let n = top as usize;
        let mut values: Vec<Vec<Option<u8>>> = Vec::new();
        let mut i: usize = 0;
        while i < n
            invariant
                i <= n,
                values@.len() == i,
                forall|m: int| 0 <= m < i ==> #[trigger] values@[m]@.len() == n,
                forall|m: int, k: int| 0 <= m < i && 0 <= k < n ==> #[trigger] values@[m]@[k] is None,
            decreases n - i,
        {
            let mut line: Vec<Option<u8>> = Vec::new();
            let mut j: usize = 0;
            while j < n
                invariant
                    j <= n,
                    line@.len() == j,
                    forall|k: int| 0 <= k < j ==> #[trigger] line@[k] is None,
                decreases n - j,
            {
                line.push(None);
                j = j + 1;
            }
            values.push(line);
            i = i + 1;
        }
        values
    }

    /// An empty grid of `size x size` boxes.
    pub fn new(size: u8) -> (r: Self)
        requires
            size * size <= u8::MAX,
        ensures
            r.wf(),
            r@.valid(),
            r@.size == size,
            forall|i: int, k: int|
                0 <= i < size * size && 0 <= k < size * size ==> #[trigger] val(r@.grid, i, k) == 0,
    {
        let top = size * size;
        let values = Board::empty_rows(top);
        let r = Self { size, top, values, verification: Verifier::new(size) };
        let ghost n = size as int;
        assert forall|i: int, k: int| 0 <= i < n * n && 0 <= k < n * n implies #[trigger] val(
            r@.grid,
            i,
            k,
        ) == 0 by {
            assert(r@.grid[i] == r.values@[i]@);
        }
        assert forall|i: int| 0 <= i < n * n implies #[trigger] r@.grid[i].len() == n * n by {
            assert(r@.grid[i] == r.values@[i]@);
        }
        let ghost g = r@.grid;
        assert forall|kind: int, i: int, v: int| 1 <= v implies !line_has(g, n, kind, i, v) by {
            if line_has(g, n, kind, i, v) {
                let (a, b) = choose|a: int, b: int|
                    0 <= a < n * n && 0 <= b < n * n && line_of(kind, a, b, n) == i && #[trigger] val(
                        g,
                        a,
                        b,
                    ) == v;
                assert(val(g, a, b) == 0);
            }
        }
        assert(n * n >= 0) by (nonlinear_arith);
        assert(grid_wf(g, n));
        assert(r@.wf());
        assert forall|kind: int, i: int, j: int| 0 <= kind < 3 && 0 <= i < n * n && 0 <= j < n * n implies !#[trigger] r@.table(kind)[i][j] by {
            assert(!r.verification.rows@[i][j]);
        }
        assert(r@.synced());
        assert(conflict_free(g, n));
        r
    }

    /// The value at `loc`, if any.
    pub fn get(&self, loc: &Loc) -> (r: Option<u8>)
        requires
            self.wf(),
            loc.in_grid(self@.top()),
        ensures
            r == self@.grid[loc.row - 1][loc.col - 1],
    {
        assert(self@.grid[loc.row - 1] == self.values@[loc.row - 1]@);
        self.values[loc.row as usize - 1][loc.col as usize - 1]
    }

    fn put_cell(&mut self, loc: &Loc, x: Option<u8>)
        requires
            old(self).wf(),
            loc.in_grid(old(self)@.top()),
        ensures
            final(self).size == old(self).size,
            final(self).top == old(self).top,
            final(self).verification == old(self).verification,
            final(self)@.grid == put(old(self)@.grid, *loc, x),
    {
        let i = loc.row as usize - 1;
        let k = loc.col as usize - 1;
        let mut line = self.values[i].clone();
        assert(line@ =~= old(self)@.grid[i as int]);
        line.set(k, x);
        self.values.set(i, line);
        assert(self@.grid =~= put(old(self)@.grid, *loc, x)) by {
            assert forall|m: int| 0 <= m < self@.grid.len() implies #[trigger] self@.grid[m] == put(
                old(self)@.grid,
                *loc,
                x,
            )[m] by {
                if m != i as int {
                    assert(self.values@[m] == old(self).values@[m]);
                }
            }
        }
    }

    /// Overwrites the cell at `loc` with `value`, with no check of legality:
    /// the value it held is unmarked first, then the new one is marked.
    pub fn set(&mut self, loc: &Loc, value: Option<u8>)
        requires
            old(self).wf(),
            loc.in_grid(old(self)@.top()),
            value matches Some(v) ==> 1 <= v <= old(self)@.top(),
        ensures
            final(self).wf(),
            final(self)@ == old(self)@.after_set(*loc, value),
    {
        let ghost n = self@.size;
        let current = self.get(loc);
        proof {
            assert(val(self@.grid, loc.row - 1, loc.col - 1) <= n * n);
        }
        if let Some(o) = current {
            self.verification.unset(loc, o);
        }
        self.put_cell(loc, None);
        proof {
            lemma_put_wf(old(self)@.grid, n, *loc, None);
        }
        let ghost mid = self@.grid;
        if let Some(new) = value {
            self.put_cell(loc, Some(new));
            self.verification.set(loc, new);
            proof {
                lemma_put_wf(mid, n, *loc, Some(new));
            }
        }
    }

    /// Whether every row, column and box has every value marked.
    pub fn is_solved(&self) -> (r: bool)
        requires
            self.wf(),
        ensures
            r == self@.all_used(),
    {
        self.verification.is_solved()
    }

    /// The values still legal at `loc`, ascending.
    pub fn available_values(&self, loc: &Loc) -> (r: Vec<u8>)
        requires
            self.wf(),
            loc.in_grid(self@.top()),
        ensures
            r@ == self@.candidates(*loc),
    {
        self.verification.available_values(loc)
    }

    /// Places `value` at `loc` only where it is a candidate there; an empty
    /// value is always accepted. A refused value leaves the grid unchanged.
    pub fn try_set(&mut self, loc: &Loc, value: Option<u8>) -> (r: Result<(), Conflict>)
        requires
            old(self).wf(),
            loc.in_grid(old(self)@.top()),
        ensures
            final(self).wf(),
            r is Err <==> (value matches Some(v) && !old(self)@.candidates(*loc).contains(v)),
            r matches Err(e) ==> e.loc == *loc && Some(e.value) == value && final(self)@ == old(self)@,
            r is Ok ==> final(self)@ == old(self)@.after_set(*loc, value),
    {
        if let Some(v) = value {
            let cands = self.available_values(loc);
            if !contains(&cands, v) {
                return Err(Conflict { value: v, loc: *loc });
            }
            proof {
                crate::constraints::lemma_free_upto(
                    self@.rows,
                    self@.cols,
                    self@.sqrs,
                    self@.size,
                    *loc,
                    self@.top(),
                );
            }
        }
        self.set(loc, value);
        Ok(())
    }

    /// Fills the cells `locs[start..]` in turn, each with the values still
    /// legal for it, undoing a value when the rest cannot be filled. On
    /// failure the grid and its trackers are as they were.
    fn try_to_solve(&mut self, locs: &Vec<Loc>, start: usize) -> (r: bool)
        requires
            old(self).wf(),
            empty_distinct(old(self)@.grid, old(self)@.size, locs@, start as int),
        ensures
            final(self).wf(),
            final(self)@.size == old(self)@.size,
            !r ==> final(self)@ == old(self)@,
            r ==> final(self)@.all_used() && filled_as(
                old(self)@.grid,
                final(self)@.grid,
                old(self)@.size,
                locs@,
                start as int,
            ) && extends(old(self)@.grid, final(self)@.grid, old(self)@.size),
            r && lists_empties(old(self)@.grid, old(self)@.size, locs@, start as int) ==> full(
                final(self)@.grid,
                old(self)@.size,
            ),
            old(self)@.synced() ==> final(self)@.synced(),
            old(self)@.synced() && lists_empties(old(self)@.grid, old(self)@.size, locs@, start as int) ==> (r
                <==> solvable(old(self)@.grid, old(self)@.size)),
        decreases locs@.len() - start,
    {
        let ghost s0 = self@;
        let ghost n = s0.size;
        let ghost g0 = s0.grid;
        if start == locs.len() {
            proof {
                if lists_empties(g0, n, locs@, start as int) {
                    assert(full(g0, n));
                    if s0.synced() {
                        s0.lemma_full_solved();
                    }
                }
            }
            return self.is_solved();
        }
        let loc = locs[start];
        proof {
            assert(loc.in_grid(n * n));
            crate::constraints::lemma_free_upto(s0.rows, s0.cols, s0.sqrs, n, loc, n * n);
        }
        let cands = self.available_values(&loc);
        let len = locs.len();
        let mut m: usize = 0;
        while m < cands.len()
            invariant
                self.wf(),
                self@ == s0,
                s0 == old(self)@,
                g0 == s0.grid,
                n == s0.size,
                empty_distinct(g0, n, locs@, start as int),
                start < len,
                len == locs@.len(),
                loc == locs@[start as int],
                loc.in_grid(n * n),
                val(g0, loc.row - 1, loc.col - 1) == 0,
                cands@ == s0.candidates(loc),
                forall|j: int| 0 <= j < cands@.len() ==> 1 <= #[trigger] cands@[j] <= n * n,
                forall|j: int|
                    0 <= j < m ==> (s0.synced() && lists_empties(g0, n, locs@, start as int) ==> !solvable(
                        put(g0, loc, Some(#[trigger] cands@[j])),
                        n,
                    )),
            decreases cands@.len() - m,
        {
            let v = cands[m];
            let ghost g1 = put(g0, loc, Some(v));
            proof {
                lemma_empty_distinct_step(g0, n, locs@, start as int, v);
                lemma_put_put(g0, n, loc, None, Some(v));
                lemma_put_put(g0, n, loc, None, None);
                assert(g0[loc.row - 1][loc.col - 1] is None);
                assert(s0.clear(loc) == s0);
                assert(cands@.contains(v)) by {
                    assert(cands@[m as int] == v);
                }
                crate::laws::lemma_set_then_clear(s0, loc, v);
                lemma_put_wf(g0, n, loc, Some(v));
                if s0.synced() {
                    s0.lemma_place_synced(loc, v);
                }
                if lists_empties(g0, n, locs@, start as int) {
                    lemma_lists_empties_step(g0, n, locs@, start as int, v);
                }
            }
            self.set(&loc, Some(v));
            let ghost s1 = self@;
            assert(s1.grid == g1);
            if self.try_to_solve(locs, start + 1) {
                proof {
                    let h = self@.grid;
                    assert forall|i: int, k: int| 0 <= i < n * n && 0 <= k < n * n implies if listed(
                        locs@,
                        start as int,
                        i,
                        k,
                    ) {
                        #[trigger] val(h, i, k) != 0
                    } else {
                        val(h, i, k) == val(g0, i, k)
                    } by {
                        let at_loc = i == loc.row - 1 && k == loc.col - 1;
                        if listed(locs@, start as int, i, k) && !at_loc {
                            let q = choose|q: int|
                                start <= q < locs@.len() && (#[trigger] locs@[q]).row - 1 == i && locs@[q].col - 1
                                    == k;
                            assert(q != start);
                            assert(listed(locs@, start + 1, i, k));
                        }
                        if listed(locs@, start + 1, i, k) {
                            let q = choose|q: int|
                                start + 1 <= q < locs@.len() && (#[trigger] locs@[q]).row - 1 == i && locs@[q].col
                                    - 1 == k;
                            assert(listed(locs@, start as int, i, k));
                        }
                        if at_loc {
                            assert(listed(locs@, start as int, i, k)) by {
                                assert(locs@[start as int] == loc);
                            }
                            assert(val(g1, i, k) == v);
                        }
                    }
                    lemma_filled(g0, h, n, locs@, start as int);
                    if s0.synced() && lists_empties(g0, n, locs@, start as int) {
                        let sol = choose|sol: Seq<Seq<Option<u8>>>| solution_of(g1, sol, n);
                        assert forall|i: int, k: int|
                            0 <= i < n * n && 0 <= k < n * n && #[trigger] val(g0, i, k) != 0 implies val(
                            sol,
                            i,
                            k,
                        ) == val(g0, i, k) by {
                            assert(val(g1, i, k) == val(g0, i, k));
                        }
                        assert(solution_of(g0, sol, n));
                    }
                }
                return true;
            }
            self.set(&loc, None);
            m = m + 1;
        }
        proof {
            if s0.synced() && lists_empties(g0, n, locs@, start as int) && solvable(g0, n) {
                let sol = choose|sol: Seq<Seq<Option<u8>>>| solution_of(g0, sol, n);
                s0.lemma_solution_candidate(loc, sol);
                let w = val(sol, loc.row - 1, loc.col - 1) as u8;
                let j = choose|j: int| 0 <= j < cands@.len() && cands@[j] == w;
                assert(solvable(put(g0, loc, Some(cands@[j])), n));
            }
        }
        false
    }

    /// An independent copy of the grid.
    fn copy(&self) -> (r: Self)
        requires
            self.wf(),
        ensures
            r.wf(),
            r@ == self@,
    {
        let mut values: Vec<Vec<Option<u8>>> = Vec::new();
        let mut i: usize = 0;
        while i < self.values.len()
            invariant
                0 <= i <= self.values@.len(),
                values@.len() == i,
                forall|m: int| 0 <= m < i ==> #[trigger] values@[m]@ == self.values@[m]@,
            decreases self.values@.len() - i,
        {
            let mut line: Vec<Option<u8>> = Vec::new();
            let src = &self.values[i];
            let mut k: usize = 0;
            while k < src.len()
                invariant
                    0 <= k <= src@.len(),
                    line@ == src@.subrange(0, k as int),
                decreases src@.len() - k,
            {
                line.push(src[k]);
                k = k + 1;
                assert(line@ =~= src@.subrange(0, k as int));
            }
            assert(line@ =~= src@);
            values.push(line);
            i = i + 1;
        }
        let r = Self { size: self.size, top: self.top, values, verification: self.verification.copy() };
        assert(r@.grid =~= self@.grid);
        r
    }

    /// The empty cells, row by row.
    fn empty_cells(&self) -> (r: Vec<Loc>)
        requires
            self.wf(),
        ensures
            lists_empties(self@.grid, self@.size, r@, 0),
    {
        let ghost g = self@.grid;
        let ghost n = self@.size;
        let top = self.top as usize;
        let mut r: Vec<Loc> = Vec::new();
        let mut i: usize = 0;
        while i < top
            invariant
                self.wf(),
                g == self@.grid,
                n == self@.size,
                top == n * n,
                top <= u8::MAX,
                0 <= i <= top,
                forall|m: int| 0 <= m < r@.len() ==> (#[trigger] r@[m]).in_grid(n * n) && r@[m].row - 1 < i
                    && val(g, r@[m].row - 1, r@[m].col - 1) == 0,
                forall|m1: int, m2: int|
                    0 <= m1 < m2 < r@.len() ==> before(#[trigger] r@[m1], #[trigger] r@[m2]),
                forall|a: int, c: int|
                    0 <= a < i && 0 <= c < top ==> (#[trigger] val(g, a, c) == 0 <==> exists|m: int|
                        0 <= m < r@.len() && (#[trigger] r@[m]).row - 1 == a && r@[m].col - 1 == c),
            decreases top - i,
        {
            let mut k: usize = 0;
            while k < top
                invariant
                    self.wf(),
                    g == self@.grid,
                    n == self@.size,
                    top == n * n,
                    top <= u8::MAX,
                    0 <= i < top,
                    0 <= k <= top,
                    forall|m: int| 0 <= m < r@.len() ==> (#[trigger] r@[m]).in_grid(n * n) && (r@[m].row - 1 < i
                        || (r@[m].row - 1 == i && r@[m].col - 1 < k)) && val(g, r@[m].row - 1, r@[m].col - 1)
                        == 0,
                    forall|m1: int, m2: int|
                        0 <= m1 < m2 < r@.len() ==> before(#[trigger] r@[m1], #[trigger] r@[m2]),
                    forall|a: int, c: int|
                        ((0 <= a < i && 0 <= c < top) || (a == i && 0 <= c < k)) ==> (#[trigger] val(g, a, c)
                            == 0 <==> exists|m: int|
                            0 <= m < r@.len() && (#[trigger] r@[m]).row - 1 == a && r@[m].col - 1 == c),
                decreases top - k,
            {
                let loc = Loc::new((i + 1) as u8, (k + 1) as u8);
                let cell = self.get(&loc);
                if cell.is_none() {
                    let ghost old_r = r@;
                    r.push(loc);
                    proof {
                        assert forall|a: int, c: int|
                            ((0 <= a < i && 0 <= c < top) || (a == i && 0 <= c < k + 1)) implies (#[trigger] val(
                            g,
                            a,
                            c,
                        ) == 0 <==> exists|m: int|
                            0 <= m < r@.len() && (#[trigger] r@[m]).row - 1 == a && r@[m].col - 1 == c) by {
                            if val(g, a, c) == 0 && !(a == i && c == k) {
                                let m = choose|m: int|
                                    0 <= m < old_r.len() && (#[trigger] old_r[m]).row - 1 == a && old_r[m].col - 1
                                        == c;
                                assert(r@[m] == old_r[m]);
                            }
                            if a == i && c == k {
                                assert(r@[old_r.len() as int] == loc);
                            }
                            if exists|m: int|
                                0 <= m < r@.len() && (#[trigger] r@[m]).row - 1 == a && r@[m].col - 1 == c {
                                let m = choose|m: int|
                                    0 <= m < r@.len() && (#[trigger] r@[m]).row - 1 == a && r@[m].col - 1 == c;
                                if m < old_r.len() {
                                    assert(r@[m] == old_r[m]);
                                }
                            }
                        }
                    }
                } else {
                    proof {
                        assert forall|a: int, c: int|
                            ((0 <= a < i && 0 <= c < top) || (a == i && 0 <= c < k + 1)) implies (#[trigger] val(
                            g,
                            a,
                            c,
                        ) == 0 <==> exists|m: int|
                            0 <= m < r@.len() && (#[trigger] r@[m]).row - 1 == a && r@[m].col - 1 == c) by {
                            if a == i && c == k {
                                if exists|m: int|
                                    0 <= m < r@.len() && (#[trigger] r@[m]).row - 1 == a && r@[m].col - 1 == c {
                                    let m = choose|m: int|
                                        0 <= m < r@.len() && (#[trigger] r@[m]).row - 1 == a && r@[m].col - 1
                                            == c;
                                }
                            }
                        }
                    }
                }
                k = k + 1;
            }
            i = i + 1;
        }
        proof {
            assert forall|m1: int, m2: int| 0 <= m1 < r@.len() && 0 <= m2 < r@.len() && m1 != m2 implies #[trigger] r@[m1]
                != #[trigger] r@[m2] by {
                if m1 < m2 {
                    assert(before(r@[m1], r@[m2]));
                } else {
                    assert(before(r@[m2], r@[m1]));
                }
            }
        }
        r
    }

    /// Solves a copy of the grid; the grid itself is left as it is.
    ///
    /// The empty cells are visited in a fixed order: fewest candidates
    /// first, ties row by row. A cell without any candidate ends the search
    /// at once. At each step the values tried for a cell are those still
    /// legal for it.
    pub fn solve(&self) -> (r: Option<Self>)
        requires
            self.wf(),
        ensures
            r matches Some(b) ==> {
                &&& b.wf()
                &&& b@.size == self@.size
                &&& b@.all_used()
                &&& full(b@.grid, self@.size)
                &&& extends(self@.grid, b@.grid, self@.size)
            },
            self@.synced() ==> (r is Some <==> solvable(self@.grid, self@.size)),
            r matches Some(b) ==> (self@.synced() ==> b@.valid() && solution_of(
                self@.grid,
                b@.grid,
                self@.size,
            )),
    {
        let ghost s0 = self@;
        let ghost g = s0.grid;
        let ghost n = s0.size;
        let missing = self.empty_cells();
        let mut counts: Vec<usize> = Vec::new();
        let mut m: usize = 0;
        while m < missing.len()
            invariant
                self.wf(),
                s0 == self@,
                s0.wf(),
                g == s0.grid,
                n == s0.size,
                lists_empties(g, n, missing@, 0),
                0 <= m <= missing@.len(),
                counts@.len() == m,
                forall|j: int| 0 <= j < m ==> 1 <= #[trigger] counts@[j] <= n * n,
            decreases missing@.len() - m,
        {
            let loc = missing[m];
            proof {
                assert(loc.in_grid(n * n));
                crate::constraints::lemma_free_upto(s0.rows, s0.cols, s0.sqrs, n, loc, n * n);
            }
            let c = self.available_values(&loc).len();
            if c == 0 {
                proof {
                    if s0.synced() && solvable(g, n) {
                        let sol = choose|sol: Seq<Seq<Option<u8>>>| solution_of(g, sol, n);
                        assert(val(g, loc.row - 1, loc.col - 1) == 0);
                        s0.lemma_solution_candidate(loc, sol);
                    }
                }
                return None;
            }
            counts.push(c);
            m = m + 1;
        }
        let top = self.top as usize;
        let mut order: Vec<Loc> = Vec::new();
        let ghost mut idx: Seq<int> = Seq::empty();
        let mut want: usize = 1;
        while want <= top
            invariant
                top == n * n,
                top <= u8::MAX,
                1 <= want <= top + 1,
                counts@.len() == missing@.len(),
                forall|j: int| 0 <= j < counts@.len() ==> 1 <= #[trigger] counts@[j] <= n * n,
                order@.len() == idx.len(),
                forall|j: int|
                    0 <= j < idx.len() ==> 0 <= #[trigger] idx[j] < missing@.len() && order@[j] == missing@[idx[j]]
                        && counts@[idx[j]] < want,
                forall|j1: int, j2: int| 0 <= j1 < j2 < idx.len() ==> #[trigger] idx[j1] != #[trigger] idx[j2],
                forall|q: int|
                    0 <= q < counts@.len() && #[trigger] counts@[q] < want ==> exists|j: int|
                        0 <= j < idx.len() && #[trigger] idx[j] == q,
            decreases top + 1 - want,
        {
            let mut q: usize = 0;
            while q < missing.len()
                invariant
                    top == n * n,
                    top <= u8::MAX,
                    1 <= want <= top,
                    counts@.len() == missing@.len(),
                    0 <= q <= missing@.len(),
                    order@.len() == idx.len(),
                    forall|j: int|
                        0 <= j < idx.len() ==> 0 <= #[trigger] idx[j] < missing@.len() && order@[j]
                            == missing@[idx[j]] && (counts@[idx[j]] < want || (counts@[idx[j]] == want
                            && idx[j] < q)),
                    forall|j1: int, j2: int|
                        0 <= j1 < j2 < idx.len() ==> #[trigger] idx[j1] != #[trigger] idx[j2],
                    forall|p: int|
                        0 <= p < counts@.len() && (#[trigger] counts@[p] < want || (counts@[p] == want && p
                            < q)) ==> exists|j: int| 0 <= j < idx.len() && #[trigger] idx[j] == p,
                decreases missing@.len() - q,
            {
                if counts[q] == want {
                    let ghost old_idx = idx;
                    order.push(missing[q]);
                    proof {
                        idx = idx.push(q as int);
                        assert forall|p: int|
                            0 <= p < counts@.len() && (#[trigger] counts@[p] < want || (counts@[p] == want
                                && p < q + 1)) implies exists|j: int| 0 <= j < idx.len() && #[trigger] idx[j] == p by {
                            if p == q {
                                assert(idx[old_idx.len() as int] == p);
                            } else {
                                let j = choose|j: int| 0 <= j < old_idx.len() && #[trigger] old_idx[j] == p;
                                assert(idx[j] == p);
                            }
                        }
                    }
                }
                q = q + 1;
            }
            want = want + 1;
        }
        proof {
            assert forall|i: int, k: int| 0 <= i < n * n && 0 <= k < n * n implies (#[trigger] val(g, i, k)
                == 0 <==> exists|j: int|
                0 <= j < order@.len() && (#[trigger] order@[j]).row - 1 == i && order@[j].col - 1 == k) by {
                if val(g, i, k) == 0 {
                    let p = choose|p: int|
                        0 <= p < missing@.len() && (#[trigger] missing@[p]).row - 1 == i && missing@[p].col - 1
                            == k;
                    assert(counts@[p] < want);
                    let j = choose|j: int| 0 <= j < idx.len() && #[trigger] idx[j] == p;
                    assert(order@[j] == missing@[p]);
                }
                if exists|j: int|
                    0 <= j < order@.len() && (#[trigger] order@[j]).row - 1 == i && order@[j].col - 1 == k {
                    let j = choose|j: int|
                        0 <= j < order@.len() && (#[trigger] order@[j]).row - 1 == i && order@[j].col - 1 == k;
                    assert(missing@[idx[j]] == order@[j]);
                }
            }
            assert forall|j1: int, j2: int|
                0 <= j1 < order@.len() && 0 <= j2 < order@.len() && j1 != j2 implies #[trigger] order@[j1]
                != #[trigger] order@[j2] by {
                if j1 < j2 {
                    assert(idx[j1] != idx[j2]);
                } else {
                    assert(idx[j2] != idx[j1]);
                }
                assert(missing@[idx[j1]] == order@[j1]);
                assert(missing@[idx[j2]] == order@[j2]);
            }
            assert forall|j: int| 0 <= j < order@.len() implies (#[trigger] order@[j]).in_grid(n * n) by {
                assert(missing@[idx[j]] == order@[j]);
            }
            assert(lists_empties(g, n, order@, 0));
            lemma_lists_empties_distinct(g, n, order@, 0);
        }
        let mut result = self.copy();
        if result.try_to_solve(&order, 0) {
            proof {
                if s0.synced() {
                    result@.lemma_full_solved();
                }
            }
            Some(result)
        } else {
            None
        }
    }

    /// The grid of `size x size` boxes that holds the given cells. `None`
    /// unless the list names every cell of the grid exactly once, with
    /// values in `1..=top`.
    pub fn from_cells(size: u8, cells: Vec<(Loc, Option<u8>)>) -> (r: Option<Self>)
        requires
            size * size <= u8::MAX,
        ensures
            r is Some <==> entries_ok(cells@, size as int) && keys_distinct(cells@) && keys_cover(
                cells@,
                size as int,
            ),
            r matches Some(b) ==> {
                &&& b.wf()
                &&& b@.size == size
                &&& b@.synced()
                &&& forall|m: int|
                    0 <= m < cells@.len() ==> b@.grid[(#[trigger] cells@[m]).0.row - 1][cells@[m].0.col
                        - 1] == cells@[m].1
            },
    {
        let ghost n = size as int;
        let top = size * size;
        let mut board = Board::new(size);
        // The cells met so far: `seen.values[row - 1][col - 1]`.
        let mut seen = ValChecker::new(top);
        let mut m: usize = 0;
        while m < cells.len()
            invariant
                n == size as int,
                top == n * n,
                top <= u8::MAX,
                board.wf(),
                board@.size == n,
                board@.synced(),
                seen.wf(top as int),
                0 <= m <= cells@.len(),
                entries_ok(cells@.subrange(0, m as int), n),
                keys_distinct(cells@.subrange(0, m as int)),
                forall|i: int, k: int|
                    0 <= i < top && 0 <= k < top ==> (#[trigger] seen@[i][k] <==> exists|j: int|
                        0 <= j < m && (#[trigger] cells@[j]).0.row - 1 == i && cells@[j].0.col - 1 == k),
                forall|i: int, k: int|
                    0 <= i < top && 0 <= k < top && !#[trigger] seen@[i][k] ==> val(board@.grid, i, k) == 0,
                forall|j: int|
                    0 <= j < m ==> board@.grid[(#[trigger] cells@[j]).0.row - 1][cells@[j].0.col - 1]
                        == cells@[j].1,
            decreases cells@.len() - m,
        {
            let (loc, value) = cells[m];
            assert(cells@[m as int] == (loc, value));
            if !(1 <= loc.row && loc.row <= top && 1 <= loc.col && loc.col <= top) {
                proof {
                    assert(!(cells@[m as int]).0.in_grid(n * n));
                    assert(!entries_ok(cells@, n));
                }
                return None;
            }
            assert(seen.values@[loc.row - 1]@ == seen@[loc.row - 1]);
            if seen.values[loc.row as usize - 1][loc.col as usize - 1] {
                proof {
                    let i = loc.row - 1;
                    let k = loc.col - 1;
                    assert(seen@[i][k]);
                    let j = choose|j: int|
                        0 <= j < m && (#[trigger] cells@[j]).0.row - 1 == i && cells@[j].0.col - 1 == k;
                    assert(cells@[j].0 == cells@[m as int].0);
                }
                return None;
            }
            if let Some(v) = value {
                if !(1 <= v && v <= top) {
                    return None;
                }
            }
            let ghost before = board@;
            let ghost seen_before = seen@;
            let ghost i0 = loc.row - 1;
            let ghost k0 = loc.col - 1;
            proof {
                assert(!seen@[i0][k0]);
                assert(val(before.grid, i0, k0) == 0);
                lemma_put_put(before.grid, n, loc, None, value);
                assert(before.grid[i0][k0] is None);
                assert(before.clear(loc) == before);
                if let Some(v) = value {
                    before.lemma_place_synced(loc, v);
                }
                lemma_put_wf(before.grid, n, loc, value);
            }
            board.set(&loc, value);
            seen.set(loc.row, loc.col);
            proof {
                let g1 = board@.grid;
                assert(g1 == put(before.grid, loc, value));
                crate::checker::lemma_mark_square(seen_before, top as int, loc.row as int, loc.col as int, true);
                assert forall|j: int| 0 <= j < m implies (#[trigger] cells@[j]).0 != loc by {
                    if cells@[j].0 == loc {
                        assert(seen_before[i0][k0]);
                    }
                }
                assert forall|i: int, k: int| 0 <= i < top && 0 <= k < top implies (#[trigger] seen@[i][k]
                    <==> exists|j: int|
                    0 <= j < m + 1 && (#[trigger] cells@[j]).0.row - 1 == i && cells@[j].0.col - 1 == k) by {
                    if i == i0 && k == k0 {
                        assert(cells@[m as int].0 == loc);
                    } else {
                        assert(seen@[i][k] == seen_before[i][k]);
                        if exists|j: int|
                            0 <= j < m + 1 && (#[trigger] cells@[j]).0.row - 1 == i && cells@[j].0.col - 1 == k {
                            let j = choose|j: int|
                                0 <= j < m + 1 && (#[trigger] cells@[j]).0.row - 1 == i && cells@[j].0.col - 1
                                    == k;
                            assert(j != m);
                        }
                    }
                }
                assert forall|i: int, k: int|
                    0 <= i < top && 0 <= k < top && !#[trigger] seen@[i][k] implies val(g1, i, k) == 0 by {
                    assert(seen@[i][k] == seen_before[i][k] || (i == i0 && k == k0));
                }
                assert forall|j: int| 0 <= j < m + 1 implies g1[(#[trigger] cells@[j]).0.row - 1][cells@[j].0.col
                    - 1] == cells@[j].1 by {
                    let l = cells@[j].0;
                    if j < m {
                        assert(cells@.subrange(0, m as int)[j] == cells@[j]);
                        assert(l.in_grid(n * n));
                        assert(l != loc);
                        assert(before.grid[l.row - 1][l.col - 1] == cells@[j].1);
                        if l.row - 1 == i0 {
                            assert(l.col - 1 != k0);
                            assert(g1[i0] == before.grid[i0].update(k0, value));
                        } else {
                            assert(g1[l.row - 1] == before.grid[l.row - 1]);
                        }
                    } else {
                        assert(l == loc);
                        assert(g1[i0] == before.grid[i0].update(k0, value));
                    }
                }
                let pre = cells@.subrange(0, m as int);
                let cur = cells@.subrange(0, m + 1);
                assert forall|q: int| 0 <= q < cur.len() implies {
                    &&& (#[trigger] cur[q]).0.in_grid(n * n)
                    &&& (cur[q].1 matches Some(v) ==> 1 <= v <= n * n)
                } by {
                    if q < m {
                        assert(cur[q] == pre[q]);
                    }
                }
                assert forall|q1: int, q2: int|
                    0 <= q1 < cur.len() && 0 <= q2 < cur.len() && q1 != q2 implies (#[trigger] cur[q1]).0 != (
                    #[trigger] cur[q2]).0 by {
                    if q1 < m && q2 < m {
                        assert(cur[q1] == pre[q1]);
                        assert(cur[q2] == pre[q2]);
                    } else if q1 < m {
                        assert(cur[q1] == cells@[q1]);
                    } else {
                        assert(cur[q2] == cells@[q2]);
                    }
                }
            }
            m = m + 1;
        }
        proof {
            assert(cells@.subrange(0, m as int) =~= cells@);
        }
        if !seen.is_solved() {
            proof {
                let (i, k) = choose|i: int, k: int|
                    0 <= i < seen@.len() && 0 <= k < seen@[i].len() && !#[trigger] seen@[i][k];
                if keys_cover(cells@, n) {
                    assert(crate::grid::names(cells@, i, k));
                    let j = choose|j: int|
                        0 <= j < cells@.len() && (#[trigger] cells@[j]).0.row - 1 == i && cells@[j].0.col - 1 == k;
                }
            }
            return None;
        }
        proof {
            assert forall|i: int, k: int| 0 <= i < n * n && 0 <= k < n * n implies #[trigger] crate::grid::names(
                cells@,
                i,
                k,
            ) by {
                assert(seen@[i][k]);
            }
        }
        Some(board)
    }


    /// The grid whose rows are `rows`: `top` rows of `top` cells each, where
    /// `top` is a square of at most 255. `None` for any other shape, or for
    /// a value outside `1..=top`.
    pub fn from_rows(rows: Vec<Vec<Option<u8>>>) -> (r: Option<Self>)
        ensures
            r is Some <==> exists|n: int| square_grid(rows_view(rows@), n),
            r matches Some(b) ==> {
                &&& b.wf()
                &&& b@.synced()
                &&& square_grid(rows_view(rows@), b@.size)
                &&& b@.grid == rows_view(rows@)
            },
    {
        let ghost t = rows_view(rows@);
        let len = rows.len();
        if len > 255 {
            return None;
        }
        let mut size: u8 = 0;
        // The square of `size + 1`.
        let mut next: usize = 1;
        while next <= len
            invariant
                len <= 255,
                size as int * size as int <= len,
                next == (size as int + 1) * (size as int + 1),
                size <= 15,
            decreases 256 - size,
        {
            proof {
                if size >= 15 {
                    assert((size as int + 1) * (size as int + 1) > 255) by (nonlinear_arith)
                        requires size >= 15;
                }
                assert((size as int + 2) * (size as int + 2) == next + 2 * size as int + 3) by (nonlinear_arith)
                    requires next == (size as int + 1) * (size as int + 1);
            }
            next = next + 2 * (size as usize) + 3;
            size = size + 1;
        }
        assert((size as int) * (size as int) <= 255);
        proof {
            assert forall|m: int| #![trigger square_grid(t, m)] square_grid(t, m) implies m == size by {
                lemma_square_unique(size as int, m, len as int);
            }
        }
        assert(size as int * size as int == (size as usize) * (size as usize));
        if (size as usize) * (size as usize) != len {
            return None;
        }
        let mut cells: Vec<(Loc, Option<u8>)> = Vec::new();
        let mut i: usize = 0;
        while i < len
            invariant
                len == rows@.len(),
                len <= 255,
                size * size == len,
                t == rows_view(rows@),
                0 <= i <= len,
                cells@.len() == i * len,
                forall|j: int| 0 <= j < i ==> #[trigger] rows@[j]@.len() == len,
                forall|m: int|
                    0 <= m < cells@.len() ==> {
                        let e = #[trigger] cells@[m];
                        &&& 1 <= e.0.row <= i
                        &&& 1 <= e.0.col <= len
                        &&& e.1 == t[e.0.row - 1][e.0.col - 1]
                    },
                forall|a: int, c: int|
                    0 <= a < i && 0 <= c < len ==> #[trigger] names(cells@, a, c),
                forall|m1: int, m2: int|
                    0 <= m1 < m2 < cells@.len() ==> before((#[trigger] cells@[m1]).0, (#[trigger] cells@[m2]).0),
            decreases len - i,
        {
            let row = &rows[i];
            if row.len() != len {
                proof {
                    assert(t[i as int].len() != t.len());
                }
                return None;
            }
            let mut k: usize = 0;
            while k < len
                invariant
                    len == rows@.len(),
                    len <= 255,
                    t == rows_view(rows@),
                    0 <= i < len,
                    row@ == rows@[i as int]@,
                    row@.len() == len,
                    0 <= k <= len,
                    cells@.len() == i * len + k,
                    forall|m: int|
                        0 <= m < cells@.len() ==> {
                            let e = #[trigger] cells@[m];
                            &&& 1 <= e.0.row <= i + 1
                            &&& 1 <= e.0.col <= len
                            &&& e.1 == t[e.0.row - 1][e.0.col - 1]
                            &&& (e.0.row <= i || e.0.col <= k)
                        },
                    forall|m1: int, m2: int|
                        0 <= m1 < m2 < cells@.len() ==> before((#[trigger] cells@[m1]).0, (#[trigger] cells@[m2]).0),
                    forall|a: int, c: int|
                        (0 <= a < i && 0 <= c < len) || (a == i && 0 <= c < k) ==> #[trigger] names(cells@, a, c),
                decreases len - k,
            {
                let ghost before = cells@;
                cells.push((Loc::new((i + 1) as u8, (k + 1) as u8), row[k]));
                proof {
                    assert(cells@.len() == i * len + k + 1) by (nonlinear_arith)
                        requires cells@.len() == before.len() + 1, before.len() == i * len + k;
                    assert forall|a: int, c: int|
                        (0 <= a < i && 0 <= c < len) || (a == i && 0 <= c < k + 1) implies #[trigger] names(
                        cells@,
                        a,
                        c,
                    ) by {
                        if a == i && c == k {
                            assert(cells@[before.len() as int].0.row - 1 == a);
                        } else {
                            assert(names(before, a, c));
                            let m = choose|m: int|
                                0 <= m < before.len() && (#[trigger] before[m]).0.row - 1 == a && before[m].0.col - 1
                                    == c;
                            assert(cells@[m] == before[m]);
                        }
                    }
                    assert(t[i as int] == rows@[i as int]@);
                }
                k = k + 1;
            }
            proof {
                assert(cells@.len() == (i + 1) * len) by (nonlinear_arith)
                    requires cells@.len() == i * len + len;
            }
            i = i + 1;
        }
        let ghost n = size as int;
        proof {
            assert forall|j: int| 0 <= j < len implies #[trigger] t[j].len() == len by {
                assert(t[j] == rows@[j]@);
            }
        }
        let r = Board::from_cells(size, cells);
        proof {
            let cs = cells@;
            if square_grid(t, n) {
                assert forall|m: int| 0 <= m < cs.len() implies {
                    &&& (#[trigger] cs[m]).0.in_grid(n * n)
                    &&& (cs[m].1 matches Some(v) ==> 1 <= v <= n * n)
                } by {
                    let e = cs[m];
                    assert(e.1 == t[e.0.row - 1][e.0.col - 1]);
                }
            } else {
                let (a, c) = choose|a: int, c: int|
                    0 <= a < t.len() && 0 <= c < t.len() && !(#[trigger] t[a][c] matches Some(v) ==> 1 <= v
                        <= t.len());
                assert(names(cs, a, c));
                let m = choose|m: int| 0 <= m < cs.len() && (#[trigger] cs[m]).0.row - 1 == a && cs[m].0.col - 1 == c;
                assert(!entries_ok(cs, n));
            }
            assert forall|m1: int, m2: int|
                0 <= m1 < cs.len() && 0 <= m2 < cs.len() && m1 != m2 implies (#[trigger] cs[m1]).0 != (
                #[trigger] cs[m2]).0 by {
                if m1 < m2 {
                    assert(before(cs[m1].0, cs[m2].0));
                } else {
                    assert(before(cs[m2].0, cs[m1].0));
                }
            }
        }
        match r {
            Some(b) => {
                proof {
                    assert(b@.grid =~~= t) by {
                        assert forall|a: int, c: int| 0 <= a < len && 0 <= c < len implies b@.grid[a][c] == t[a][c] by {
                            assert(names(cells@, a, c));
                        }
                    }
                }
                Some(b)
            },
            None => None,
        }
    }

    /// The box dimension.
    pub fn size(&self) -> (r: u8)
        requires
            self.wf(),
        ensures
            r == self@.size,
    {
        self.size
    }

    /// The side of the grid, `size * size`.
    pub fn top(&self) -> (r: u8)
        requires
            self.wf(),
        ensures
            r == self@.top(),
    {
        self.top
    }

    /// The rows of the grid, each a list of cells.
    pub fn to_vec(&self) -> (r: Vec<Vec<Option<u8>>>)
        requires
            self.wf(),
        ensures
            rows_view(r@) == self@.grid,
    {
        self.copy().values
    }

    /// The line trackers of the grid.
    pub fn verification(&self) -> (r: &Verifier)
        requires
            self.wf(),
        ensures
            r.size == self@.size,
            r.rows@ == self@.rows,
            r.cols@ == self@.cols,
            r.sqrs@ == self@.sqrs,
    {
        &self.verification
    }

    /// Every cell of a `top x top` grid, row by row.
    pub fn gen_all_locs(top: u8) -> (r: Vec<Loc>)
        ensures
            forall|m: int| 0 <= m < r@.len() ==> (#[trigger] r@[m]).in_grid(top as int),
            forall|m1: int, m2: int| 0 <= m1 < m2 < r@.len() ==> before(#[trigger] r@[m1], #[trigger] r@[m2]),
            forall|row: int, col: int|
                1 <= row <= top && 1 <= col <= top ==> #[trigger] lists_cell(r@, row, col),
    {
        let mut r: Vec<Loc> = Vec::new();
        let t = top as u16;
        let mut i: u16 = 1;
        while i <= t
            invariant
                t == top,
                1 <= i <= t + 1,
                forall|m: int| 0 <= m < r@.len() ==> (#[trigger] r@[m]).in_grid(top as int) && r@[m].row < i,
                forall|m1: int, m2: int| 0 <= m1 < m2 < r@.len() ==> before(#[trigger] r@[m1], #[trigger] r@[m2]),
                forall|row: int, col: int|
                    1 <= row < i && 1 <= col <= top ==> #[trigger] lists_cell(r@, row, col),
            decreases t + 1 - i,
        {
            let mut k: u16 = 1;
            while k <= t
                invariant
                    t == top,
                    1 <= i <= t,
                    1 <= k <= t + 1,
                    forall|m: int|
                        0 <= m < r@.len() ==> (#[trigger] r@[m]).in_grid(top as int) && (r@[m].row < i || (r@[m].row == i
                            && r@[m].col < k)),
                    forall|m1: int, m2: int| 0 <= m1 < m2 < r@.len() ==> before(#[trigger] r@[m1], #[trigger] r@[m2]),
                    forall|row: int, col: int|
                        (1 <= row < i && 1 <= col <= top) || (row == i && 1 <= col < k) ==> #[trigger] lists_cell(r@, row, col),
                decreases t + 1 - k,
            {
                let ghost before_r = r@;
                r.push(Loc::new(i as u8, k as u8));
                proof {
                    assert forall|row: int, col: int|
                        (1 <= row < i && 1 <= col <= top) || (row == i && 1 <= col < k + 1) implies #[trigger] lists_cell(r@, row, col) by {
                        if row == i && col == k {
                            assert(r@[before_r.len() as int].row == row);
                        } else {
                            assert(lists_cell(before_r, row, col));
                            let m = choose|m: int|
                                0 <= m < before_r.len() && (#[trigger] before_r[m]).row == row && before_r[m].col == col;
                            assert(r@[m] == before_r[m]);
                        }
                    }
                }
                k = k + 1;
            }
            i = i + 1;
        }
        r
    }
}

} // verus!
