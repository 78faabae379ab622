//! The mathematical model of a grid: its cells, the three line tables, and
//! what it means for them to agree and for the grid to be solved.
use vstd::prelude::*;
use crate::checker::{mark, square_table, lemma_mark_square};
use crate::constraints::free_upto;
use crate::loc::{Loc, box_of};
use vstd::arithmetic::div_mod::{lemma_fundamental_div_mod, lemma_mod_pos_bound, lemma_div_pos_is_pos};
use vstd::relations::injective_on;
use vstd::set_lib::{lemma_int_range, lemma_map_size, lemma_subset_equality, set_int_range};

verus! {

/// The value at row `i`, column `k` (both 0-based), or 0 for an empty cell.
pub open spec fn val(g: Seq<Seq<Option<u8>>>, i: int, k: int) -> int {
    match g[i][k] {
        Some(x) => x as int,
        None => 0,
    }
}

/// The 0-based box of the cell at 0-based row `i`, column `k`.
pub open spec fn box0(i: int, k: int, n: int) -> int {
    (i / n) * n + k / n
}

/// The 0-based index of the line of the given kind (0: row, 1: column,
/// 2: box) that holds the cell at 0-based row `i`, column `k`.
pub open spec fn line_of(kind: int, i: int, k: int, n: int) -> int {
    if kind == 0 {
        i
    } else if kind == 1 {
        k
    } else {
        box0(i, k, n)
    }
}

/// Line `line` (0-based) of the given kind holds `v`.
pub open spec fn line_has(g: Seq<Seq<Option<u8>>>, n: int, kind: int, line: int, v: int) -> bool {
    exists|i: int, k: int|
        0 <= i < n * n && 0 <= k < n * n && line_of(kind, i, k, n) == line && #[trigger] val(g, i, k)
            == v
}

/// Row `i` (0-based) holds `v`.
pub open spec fn row_has(g: Seq<Seq<Option<u8>>>, n: int, i: int, v: int) -> bool {
    line_has(g, n, 0, i, v)
}

/// Column `k` (0-based) holds `v`.
pub open spec fn col_has(g: Seq<Seq<Option<u8>>>, n: int, k: int, v: int) -> bool {
    line_has(g, n, 1, k, v)
}

/// Box `b` (0-based) holds `v`.
pub open spec fn box_has(g: Seq<Seq<Option<u8>>>, n: int, b: int, v: int) -> bool {
    line_has(g, n, 2, b, v)
}

/// Two distinct cells share a row, a column or a box.
pub open spec fn peers(i1: int, k1: int, i2: int, k2: int, n: int) -> bool {
    &&& !(i1 == i2 && k1 == k2)
    &&& exists|kind: int| 0 <= kind < 3 && #[trigger] line_of(kind, i1, k1, n) == line_of(kind, i2, k2, n)
}

/// A `top x top` grid whose values lie in `1..=top`.
pub open spec fn grid_wf(g: Seq<Seq<Option<u8>>>, n: int) -> bool {
    &&& g.len() == n * n
    &&& forall|i: int| 0 <= i < n * n ==> #[trigger] g[i].len() == n * n
    &&& forall|i: int, k: int|
        0 <= i < n * n && 0 <= k < n * n ==> {
            &&& 0 <= #[trigger] val(g, i, k) <= n * n
            &&& (val(g, i, k) == 0 <==> g[i][k] is None)
        }
}

/// No value stands twice in a row, a column or a box.
pub open spec fn conflict_free(g: Seq<Seq<Option<u8>>>, n: int) -> bool {
    forall|i1: int, k1: int, i2: int, k2: int|
        0 <= i1 < n * n && 0 <= k1 < n * n && 0 <= i2 < n * n && 0 <= k2 < n * n
            && peers(i1, k1, i2, k2, n) && #[trigger] val(g, i1, k1) != 0 ==> val(g, i1, k1)
            != #[trigger] val(g, i2, k2)
}

/// Every cell holds a value.
pub open spec fn full(g: Seq<Seq<Option<u8>>>, n: int) -> bool {
    forall|i: int, k: int| 0 <= i < n * n && 0 <= k < n * n ==> #[trigger] val(g, i, k) != 0
}

/// Every row, column and box holds every value of `1..=top`.
pub open spec fn covers(g: Seq<Seq<Option<u8>>>, n: int) -> bool {
    forall|kind: int, line: int, v: int|
        0 <= kind < 3 && 0 <= line < n * n && 1 <= v <= n * n ==> #[trigger] line_has(g, n, kind, line, v)
}

/// `s` keeps every value that `g` holds.
pub open spec fn extends(g: Seq<Seq<Option<u8>>>, s: Seq<Seq<Option<u8>>>, n: int) -> bool {
    forall|i: int, k: int|
        0 <= i < n * n && 0 <= k < n * n && #[trigger] val(g, i, k) != 0 ==> val(s, i, k) == val(g, i, k)
}

/// `s` is a solution of `g`: a full grid that keeps the values of `g` and in
/// which every row, column and box holds each value exactly once.
pub open spec fn solution_of(g: Seq<Seq<Option<u8>>>, s: Seq<Seq<Option<u8>>>, n: int) -> bool {
    &&& grid_wf(s, n)
    &&& full(s, n)
    &&& conflict_free(s, n)
    &&& covers(s, n)
    &&& extends(g, s, n)
}

/// Some solution of `g` exists.
pub open spec fn solvable(g: Seq<Seq<Option<u8>>>, n: int) -> bool {
    exists|s: Seq<Seq<Option<u8>>>| solution_of(g, s, n)
}

/// `locs[start..]` lists each empty cell of `g` exactly once, and nothing else.
pub open spec fn lists_empties(g: Seq<Seq<Option<u8>>>, n: int, locs: Seq<Loc>, start: int) -> bool {
    &&& 0 <= start <= locs.len()
    &&& forall|m: int| start <= m < locs.len() ==> (#[trigger] locs[m]).in_grid(n * n)
    &&& forall|m1: int, m2: int|
        start <= m1 < locs.len() && start <= m2 < locs.len() && m1 != m2 ==> #[trigger] locs[m1]
            != #[trigger] locs[m2]
    &&& forall|i: int, k: int|
        0 <= i < n * n && 0 <= k < n * n ==> (#[trigger] val(g, i, k) == 0 <==> exists|m: int|
            start <= m < locs.len() && (#[trigger] locs[m]).row - 1 == i && locs[m].col - 1 == k)
}

/// `locs[start..]` names distinct empty cells of `g`.
pub open spec fn empty_distinct(g: Seq<Seq<Option<u8>>>, n: int, locs: Seq<Loc>, start: int) -> bool {
    &&& 0 <= start <= locs.len()
    &&& forall|m: int|
        start <= m < locs.len() ==> (#[trigger] locs[m]).in_grid(n * n) && val(g, locs[m].row - 1, locs[m].col - 1)
            == 0
    &&& forall|m1: int, m2: int|
        start <= m1 < locs.len() && start <= m2 < locs.len() && m1 != m2 ==> #[trigger] locs[m1]
            != #[trigger] locs[m2]
}

/// Some entry of `locs[start..]` names the cell at 0-based row `i`, column `k`.
pub open spec fn listed(locs: Seq<Loc>, start: int, i: int, k: int) -> bool {
    exists|m: int| start <= m < locs.len() && (#[trigger] locs[m]).row - 1 == i && locs[m].col - 1 == k
}

/// `h` holds a value in every cell that `locs[start..]` names, and agrees
/// with `g` on every other cell.
pub open spec fn filled_as(
    g: Seq<Seq<Option<u8>>>,
    h: Seq<Seq<Option<u8>>>,
    n: int,
    locs: Seq<Loc>,
    start: int,
) -> bool {
    forall|i: int, k: int|
        0 <= i < n * n && 0 <= k < n * n ==> if listed(locs, start, i, k) {
            #[trigger] val(h, i, k) != 0
        } else {
            val(h, i, k) == val(g, i, k)
        }
}

/// Each entry names a cell of the grid and a value of `1..=top` or none.
pub open spec fn entries_ok(cells: Seq<(Loc, Option<u8>)>, n: int) -> bool {
    forall|m: int|
        0 <= m < cells.len() ==> {
            &&& (#[trigger] cells[m]).0.in_grid(n * n)
            &&& (cells[m].1 matches Some(v) ==> 1 <= v <= n * n)
        }
}

/// No cell is named twice.
pub open spec fn keys_distinct(cells: Seq<(Loc, Option<u8>)>) -> bool {
    forall|m1: int, m2: int|
        0 <= m1 < cells.len() && 0 <= m2 < cells.len() && m1 != m2 ==> (#[trigger] cells[m1]).0 != (
        #[trigger] cells[m2]).0
}

/// Some entry names the cell at 0-based row `i`, column `k`.
pub open spec fn names(cells: Seq<(Loc, Option<u8>)>, i: int, k: int) -> bool {
    exists|m: int| 0 <= m < cells.len() && (#[trigger] cells[m]).0.row - 1 == i && cells[m].0.col - 1 == k
}

/// Every cell of the grid is named.
pub open spec fn keys_cover(cells: Seq<(Loc, Option<u8>)>, n: int) -> bool {
    forall|i: int, k: int| 0 <= i < n * n && 0 <= k < n * n ==> #[trigger] names(cells, i, k)
}

/// The rows of a grid as nested sequences.
pub open spec fn rows_view(rows: Seq<Vec<Option<u8>>>) -> Seq<Seq<Option<u8>>> {
    rows.map_values(|r: Vec<Option<u8>>| r@)
}

/// `t` is a square grid of `n * n` rows of `n * n` cells, with `n * n` at
/// most 255, whose values lie in `1..=n * n`.
pub open spec fn square_grid(t: Seq<Seq<Option<u8>>>, n: int) -> bool {
    &&& 0 <= n
    &&& n * n == t.len()
    &&& t.len() <= u8::MAX
    &&& forall|i: int| 0 <= i < t.len() ==> #[trigger] t[i].len() == t.len()
    &&& forall|i: int, k: int|
        0 <= i < t.len() && 0 <= k < t.len() ==> (#[trigger] t[i][k] matches Some(v) ==> 1 <= v <= t.len())
}

/// `v` stands nowhere in the row, the column or the box of `loc`.
pub open spec fn absent(g: Seq<Seq<Option<u8>>>, n: int, loc: Loc, v: int) -> bool {
    forall|kind: int|
        0 <= kind < 3 ==> !#[trigger] line_has(g, n, kind, line_of(kind, loc.row - 1, loc.col - 1, n), v)
}

/// `g` with the cell at `loc` holding `x`.
pub open spec fn put(g: Seq<Seq<Option<u8>>>, loc: Loc, x: Option<u8>) -> Seq<Seq<Option<u8>>> {
    g.update(loc.row - 1, g[loc.row - 1].update(loc.col - 1, x))
}

/// A grid together with its three line tables.
pub struct BoardState {
    pub size: int,
    pub grid: Seq<Seq<Option<u8>>>,
    pub rows: Seq<Seq<bool>>,
    pub cols: Seq<Seq<bool>>,
    pub sqrs: Seq<Seq<bool>>,
}

impl BoardState {
    pub open spec fn top(self) -> int {
        self.size * self.size
    }

    pub open spec fn wf(self) -> bool {
        &&& 0 <= self.size
        &&& self.top() <= u8::MAX
        &&& grid_wf(self.grid, self.size)
        &&& square_table(self.rows, self.top())
        &&& square_table(self.cols, self.top())
        &&& square_table(self.sqrs, self.top())
    }

    /// The table of the given kind (0: rows, 1: columns, 2: boxes).
    pub open spec fn table(self, kind: int) -> Seq<Seq<bool>> {
        if kind == 0 {
            self.rows
        } else if kind == 1 {
            self.cols
        } else {
            self.sqrs
        }
    }

    /// The tables mark exactly the values that the grid holds on each line.
    pub open spec fn synced(self) -> bool {
        forall|kind: int, i: int, j: int|
            0 <= kind < 3 && 0 <= i < self.top() && 0 <= j < self.top() ==> #[trigger] self.table(
                kind,
            )[i][j] == line_has(self.grid, self.size, kind, i, j + 1)
    }

    /// Well formed, in agreement with its tables, and free of conflicts.
    pub open spec fn valid(self) -> bool {
        &&& self.wf()
        &&& self.synced()
        &&& conflict_free(self.grid, self.size)
    }

    /// The values still legal at `loc`, as the tables say, ascending.
    pub open spec fn candidates(self, loc: Loc) -> Seq<u8> {
        free_upto(self.rows, self.cols, self.sqrs, self.size, loc, self.top())
    }

    /// The tables with `v` set to `b` on the row, the column and the box of `loc`.
    pub open spec fn with_marks(self, loc: Loc, v: int, b: bool) -> BoardState {
        BoardState {
            size: self.size,
            grid: self.grid,
            rows: mark(self.rows, loc.row as int, v, b),
            cols: mark(self.cols, loc.col as int, v, b),
            sqrs: mark(self.sqrs, box_of(loc.row as int, loc.col as int, self.size), v, b),
        }
    }

    /// The state with the grid `g` and the same tables.
    pub open spec fn with_grid(self, g: Seq<Seq<Option<u8>>>) -> BoardState {
        BoardState { grid: g, ..self }
    }

    /// Empties the cell at `loc` and unmarks the value it held.
    pub open spec fn clear(self, loc: Loc) -> BoardState {
        let o = val(self.grid, loc.row - 1, loc.col - 1);
        let s = if o == 0 {
            self
        } else {
            self.with_marks(loc, o, false)
        };
        s.with_grid(put(self.grid, loc, None))
    }

    /// Puts `v` at `loc` and marks it.
    pub open spec fn place(self, loc: Loc, v: u8) -> BoardState {
        self.with_marks(loc, v as int, true).with_grid(put(self.grid, loc, Some(v)))
    }

    /// The state after overwriting the cell at `loc` with `value`.
    pub open spec fn after_set(self, loc: Loc, value: Option<u8>) -> BoardState {
        match value {
            None => self.clear(loc),
            Some(v) => self.clear(loc).place(loc, v),
        }
    }

    /// Every value is marked on every row, column and box.
    pub open spec fn all_used(self) -> bool {
        &&& crate::checker::all_marked(self.rows)
        &&& crate::checker::all_marked(self.cols)
        &&& crate::checker::all_marked(self.sqrs)
    }
}

/// What `put` does to the values and to well-formedness.
pub proof fn lemma_put_wf(g: Seq<Seq<Option<u8>>>, n: int, loc: Loc, x: Option<u8>)
    requires
        grid_wf(g, n),
        loc.in_grid(n * n),
        x matches Some(v) ==> 1 <= v <= n * n,
    ensures
        grid_wf(put(g, loc, x), n),
        forall|i: int, k: int|
            0 <= i < n * n && 0 <= k < n * n ==> #[trigger] val(put(g, loc, x), i, k) == if i
                == loc.row - 1 && k == loc.col - 1 {
                match x {
                    Some(v) => v as int,
                    None => 0,
                }
            } else {
                val(g, i, k)
            },
{
    let p = put(g, loc, x);
    assert forall|i: int| 0 <= i < n * n implies #[trigger] p[i].len() == n * n by {
        if i != loc.row - 1 {
            assert(p[i] == g[i]);
        }
    }
    assert forall|i: int, k: int| 0 <= i < n * n && 0 <= k < n * n implies #[trigger] val(p, i, k)
        == if i == loc.row - 1 && k == loc.col - 1 {
        match x {
            Some(v) => v as int,
            None => 0,
        }
    } else {
        val(g, i, k)
    } by {
        if i != loc.row - 1 {
            assert(p[i] == g[i]);
        }
    }
}

/// Putting back what a cell holds, or overwriting what was put, leaves
/// the grid as the last put says.
pub proof fn lemma_put_put(g: Seq<Seq<Option<u8>>>, n: int, loc: Loc, x: Option<u8>, y: Option<u8>)
    requires
        grid_wf(g, n),
        loc.in_grid(n * n),
    ensures
        put(put(g, loc, x), loc, y) == put(g, loc, y),
        put(g, loc, g[loc.row - 1][loc.col - 1]) == g,
{
    assert(put(put(g, loc, x), loc, y) =~~= put(g, loc, y));
    assert(put(g, loc, g[loc.row - 1][loc.col - 1]) =~~= g);
}

/// Putting `x` at `loc` leaves unchanged whether a line holds `v`, unless
/// the line passes through `loc` and `v` is the value that was there or `x`.
proof fn lemma_line_has_put(
    g: Seq<Seq<Option<u8>>>,
    n: int,
    loc: Loc,
    x: Option<u8>,
    kind: int,
    line: int,
    v: int,
)
    requires
        grid_wf(g, n),
        loc.in_grid(n * n),
        x matches Some(w) ==> 1 <= w <= n * n,
        1 <= v,
        !(line == line_of(kind, loc.row - 1, loc.col - 1, n) && (v == val(g, loc.row - 1, loc.col - 1)
            || x == Some(v as u8))),
    ensures
        line_has(put(g, loc, x), n, kind, line, v) == line_has(g, n, kind, line, v),
{
    let p = put(g, loc, x);
    lemma_put_wf(g, n, loc, x);
    if line_has(p, n, kind, line, v) {
        let (a, b) = choose|a: int, b: int|
            0 <= a < n * n && 0 <= b < n * n && line_of(kind, a, b, n) == line && #[trigger] val(p, a, b)
                == v;
        assert(val(g, a, b) == v);
    }
    if line_has(g, n, kind, line, v) {
        let (a, b) = choose|a: int, b: int|
            0 <= a < n * n && 0 <= b < n * n && line_of(kind, a, b, n) == line && #[trigger] val(g, a, b)
                == v;
        assert(val(p, a, b) == v);
    }
}

/// Filling the first listed cell leaves the rest of the list listing the
/// empty cells.
pub proof fn lemma_lists_empties_step(g: Seq<Seq<Option<u8>>>, n: int, locs: Seq<Loc>, start: int, v: u8)
    requires
        grid_wf(g, n),
        lists_empties(g, n, locs, start),
        start < locs.len(),
        1 <= v <= n * n,
    ensures
        lists_empties(put(g, locs[start], Some(v)), n, locs, start + 1),
        val(g, locs[start].row - 1, locs[start].col - 1) == 0,
{
    let loc = locs[start];
    let g1 = put(g, loc, Some(v));
    assert(loc.in_grid(n * n));
    lemma_put_wf(g, n, loc, Some(v));
    assert(val(g, loc.row - 1, loc.col - 1) == 0);
    assert forall|i: int, k: int| 0 <= i < n * n && 0 <= k < n * n implies (#[trigger] val(g1, i, k)
        == 0 <==> exists|m: int|
        start + 1 <= m < locs.len() && (#[trigger] locs[m]).row - 1 == i && locs[m].col - 1 == k) by {
        if i == loc.row - 1 && k == loc.col - 1 {
            if exists|m: int|
                start + 1 <= m < locs.len() && (#[trigger] locs[m]).row - 1 == i && locs[m].col - 1 == k {
                let m = choose|m: int|
                    start + 1 <= m < locs.len() && (#[trigger] locs[m]).row - 1 == i && locs[m].col - 1
                        == k;
                assert(locs[m] == locs[start]);
            }
        } else {
            if val(g1, i, k) == 0 {
                assert(val(g, i, k) == 0);
                let m = choose|m: int|
                    start <= m < locs.len() && (#[trigger] locs[m]).row - 1 == i && locs[m].col - 1 == k;
                assert(m != start);
            }
            if exists|m: int|
                start + 1 <= m < locs.len() && (#[trigger] locs[m]).row - 1 == i && locs[m].col - 1 == k {
                let m = choose|m: int|
                    start + 1 <= m < locs.len() && (#[trigger] locs[m]).row - 1 == i && locs[m].col - 1
                        == k;
                assert(val(g, i, k) == 0);
            }
        }
    }
}

/// The place of the cell at 0-based row `i`, column `k` within its line of
/// the given kind: a number of `0..top`.
pub open spec fn pos(kind: int, i: int, k: int, n: int) -> int {
    if kind == 0 {
        k
    } else if kind == 1 {
        i
    } else {
        (i % n) * n + k % n
    }
}

/// A number written with a digit below `n` after a multiple of `n` is
/// written so in one way only.
proof fn lemma_split(x1: int, y1: int, x2: int, y2: int, n: int)
    requires
        0 < n,
        0 <= y1 < n,
        0 <= y2 < n,
        x1 * n + y1 == x2 * n + y2,
    ensures
        x1 == x2,
        y1 == y2,
{
    if x1 < x2 {
        assert(x1 * n + n <= x2 * n) by (nonlinear_arith)
            requires x1 < x2, 0 < n;
    }
    if x2 < x1 {
        assert(x2 * n + n <= x1 * n) by (nonlinear_arith)
            requires x2 < x1, 0 < n;
    }
}

/// Within a line, the place of a cell lies in `0..top` and tells the cell.
proof fn lemma_pos(kind: int, i1: int, k1: int, i2: int, k2: int, n: int)
    requires
        1 <= n,
        0 <= kind < 3,
        0 <= i1 < n * n,
        0 <= k1 < n * n,
        0 <= i2 < n * n,
        0 <= k2 < n * n,
        line_of(kind, i1, k1, n) == line_of(kind, i2, k2, n),
    ensures
        0 <= pos(kind, i1, k1, n) < n * n,
        pos(kind, i1, k1, n) == pos(kind, i2, k2, n) ==> i1 == i2 && k1 == k2,
{
    if kind == 2 {
        lemma_mod_pos_bound(i1, n);
        lemma_mod_pos_bound(k1, n);
        lemma_mod_pos_bound(i2, n);
        lemma_mod_pos_bound(k2, n);
        let (a, b) = (i1 % n, k1 % n);
        assert(a * n + b < n * n) by (nonlinear_arith)
            requires 0 <= a < n, 0 <= b < n;
        assert(0 <= a * n) by (nonlinear_arith)
            requires 0 <= a, 0 < n;
        lemma_fundamental_div_mod(i1, n);
        lemma_fundamental_div_mod(k1, n);
        lemma_fundamental_div_mod(i2, n);
        lemma_fundamental_div_mod(k2, n);
        lemma_div_pos_is_pos(k1, n);
        lemma_div_pos_is_pos(k2, n);
        assert(k1 / n < n) by (nonlinear_arith)
            requires 0 <= k1 < n * n, 1 <= n, k1 == n * (k1 / n) + k1 % n, 0 <= k1 % n;
        assert(k2 / n < n) by (nonlinear_arith)
            requires 0 <= k2 < n * n, 1 <= n, k2 == n * (k2 / n) + k2 % n, 0 <= k2 % n;
        lemma_split(i1 / n, k1 / n, i2 / n, k2 / n, n);
        if pos(kind, i1, k1, n) == pos(kind, i2, k2, n) {
            lemma_split(i1 % n, k1 % n, i2 % n, k2 % n, n);
        }
    }
}

/// `t` has every entry set.
proof fn lemma_all_marked_entry(t: Seq<Seq<bool>>, top: int, i: int, j: int)
    requires
        square_table(t, top),
        crate::checker::all_marked(t),
        0 <= i < top,
        0 <= j < top,
    ensures
        t[i][j],
{
}

/// A list of every empty cell lists distinct empty cells.
pub proof fn lemma_lists_empties_distinct(g: Seq<Seq<Option<u8>>>, n: int, locs: Seq<Loc>, start: int)
    requires
        lists_empties(g, n, locs, start),
    ensures
        empty_distinct(g, n, locs, start),
{
    assert forall|m: int| start <= m < locs.len() implies (#[trigger] locs[m]).in_grid(n * n) && val(
        g,
        locs[m].row - 1,
        locs[m].col - 1,
    ) == 0 by {
        let (i, k) = (locs[m].row - 1, locs[m].col - 1);
        assert(0 <= i < n * n && 0 <= k < n * n);
        assert(val(g, i, k) == 0);
    }
}

/// Filling the first listed cell leaves the rest listing distinct empty cells.
pub proof fn lemma_empty_distinct_step(g: Seq<Seq<Option<u8>>>, n: int, locs: Seq<Loc>, start: int, v: u8)
    requires
        grid_wf(g, n),
        empty_distinct(g, n, locs, start),
        start < locs.len(),
        1 <= v <= n * n,
    ensures
        empty_distinct(put(g, locs[start], Some(v)), n, locs, start + 1),
{
    let loc = locs[start];
    lemma_put_wf(g, n, loc, Some(v));
    assert forall|m: int| start + 1 <= m < locs.len() implies (#[trigger] locs[m]).in_grid(n * n) && val(
        put(g, loc, Some(v)),
        locs[m].row - 1,
        locs[m].col - 1,
    ) == 0 by {
        assert(locs[m] != locs[start]);
    }
}

/// What a fill of the listed cells keeps: every value of `g`, and, when the
/// list holds every empty cell, no empty cell at all.
pub proof fn lemma_filled(g: Seq<Seq<Option<u8>>>, h: Seq<Seq<Option<u8>>>, n: int, locs: Seq<Loc>, start: int)
    requires
        empty_distinct(g, n, locs, start),
        filled_as(g, h, n, locs, start),
    ensures
        extends(g, h, n),
        lists_empties(g, n, locs, start) ==> full(h, n),
{
    assert forall|i: int, k: int| 0 <= i < n * n && 0 <= k < n * n && #[trigger] val(g, i, k) != 0 implies val(
        h,
        i,
        k,
    ) == val(g, i, k) by {
        if listed(locs, start, i, k) {
            let m = choose|m: int| start <= m < locs.len() && (#[trigger] locs[m]).row - 1 == i && locs[m].col - 1 == k;
        }
    }
    if lists_empties(g, n, locs, start) {
        assert forall|i: int, k: int| 0 <= i < n * n && 0 <= k < n * n implies #[trigger] val(h, i, k) != 0 by {
            if !listed(locs, start, i, k) {
                assert(val(h, i, k) == val(g, i, k));
            }
        }
    }
}

impl BoardState {
    /// The tables of `with_marks`, kind by kind.
    proof fn lemma_tables(self, loc: Loc, v: int, b: bool)
        ensures
            forall|kind: int|
                0 <= kind < 3 ==> #[trigger] self.with_marks(loc, v, b).table(kind) == mark(
                    self.table(kind),
                    line_of(kind, loc.row - 1, loc.col - 1, self.size) + 1,
                    v,
                    b,
                ),
    {
    }

    /// Emptying a cell keeps a valid state valid.
    pub proof fn lemma_clear_valid(self, loc: Loc)
        requires
            self.valid(),
            loc.in_grid(self.top()),
        ensures
            self.clear(loc).valid(),
    {
        let n = self.size;
        let (r, c) = (loc.row - 1, loc.col - 1);
        let o = val(self.grid, r, c);
        let s2 = self.clear(loc);
        let g2 = s2.grid;
        lemma_put_wf(self.grid, n, loc, None);
        if o != 0 {
            self.lemma_tables(loc, o, false);
            lemma_mark_square(self.rows, n * n, loc.row as int, o, false);
            lemma_mark_square(self.cols, n * n, loc.col as int, o, false);
            crate::loc::lemma_size_pos(n);
            crate::loc::lemma_box_in_grid(loc.row as int, loc.col as int, n);
            lemma_mark_square(self.sqrs, n * n, box_of(loc.row as int, loc.col as int, n), o, false);
        }
        assert forall|kind: int, i: int, j: int|
            0 <= kind < 3 && 0 <= i < n * n && 0 <= j < n * n implies #[trigger] s2.table(kind)[i][j]
            == line_has(g2, n, kind, i, j + 1) by {
            let l = line_of(kind, r, c, n);
            if o != 0 && i == l && j + 1 == o {
                if line_has(g2, n, kind, i, j + 1) {
                    let (a, b) = choose|a: int, b: int|
                        0 <= a < n * n && 0 <= b < n * n && line_of(kind, a, b, n) == i
                            && #[trigger] val(g2, a, b) == j + 1;
                    assert(line_of(kind, a, b, n) == line_of(kind, r, c, n));
                    assert(peers(r, c, a, b, n));
                    assert(val(self.grid, a, b) == o);
                }
            } else {
                lemma_line_has_put(self.grid, n, loc, None, kind, i, j + 1);
                assert(self.table(kind)[i][j] == line_has(self.grid, n, kind, i, j + 1));
            }
        }
        assert forall|i1: int, k1: int, i2: int, k2: int|
            0 <= i1 < n * n && 0 <= k1 < n * n && 0 <= i2 < n * n && 0 <= k2 < n * n && peers(
                i1,
                k1,
                i2,
                k2,
                n,
            ) && #[trigger] val(g2, i1, k1) != 0 implies val(g2, i1, k1) != #[trigger] val(
            g2,
            i2,
            k2,
        ) by {
            assert(val(self.grid, i1, k1) != 0);
            if !(i2 == r && k2 == c) {
                assert(val(self.grid, i1, k1) != val(self.grid, i2, k2));
            }
        }
    }

    /// Putting a value into an empty cell keeps the tables in agreement
    /// with the grid, whatever else the grid holds.
    pub proof fn lemma_place_synced(self, loc: Loc, v: u8)
        requires
            self.wf(),
            self.synced(),
            loc.in_grid(self.top()),
            val(self.grid, loc.row - 1, loc.col - 1) == 0,
            1 <= v <= self.top(),
        ensures
            self.place(loc, v).wf(),
            self.place(loc, v).synced(),
    {
        let n = self.size;
        let (r, c) = (loc.row - 1, loc.col - 1);
        let s2 = self.place(loc, v);
        let g2 = s2.grid;
        lemma_put_wf(self.grid, n, loc, Some(v));
        self.lemma_tables(loc, v as int, true);
        lemma_mark_square(self.rows, n * n, loc.row as int, v as int, true);
        lemma_mark_square(self.cols, n * n, loc.col as int, v as int, true);
        crate::loc::lemma_size_pos(n);
        crate::loc::lemma_box_in_grid(loc.row as int, loc.col as int, n);
        lemma_mark_square(self.sqrs, n * n, box_of(loc.row as int, loc.col as int, n), v as int, true);
        assert forall|kind: int, i: int, j: int|
            0 <= kind < 3 && 0 <= i < n * n && 0 <= j < n * n implies #[trigger] s2.table(kind)[i][j]
            == line_has(g2, n, kind, i, j + 1) by {
            let l = line_of(kind, r, c, n);
            if i == l && j + 1 == v {
                assert(val(g2, r, c) == v);
            } else {
                lemma_line_has_put(self.grid, n, loc, Some(v), kind, i, j + 1);
                assert(self.table(kind)[i][j] == line_has(self.grid, n, kind, i, j + 1));
            }
        }
    }

    /// Putting a value that its row, column and box lack into an empty
    /// cell keeps a valid state valid.
    pub proof fn lemma_place_valid(self, loc: Loc, v: u8)
        requires
            self.valid(),
            loc.in_grid(self.top()),
            val(self.grid, loc.row - 1, loc.col - 1) == 0,
            1 <= v <= self.top(),
            absent(self.grid, self.size, loc, v as int),
        ensures
            self.place(loc, v).valid(),
    {
        let n = self.size;
        let (r, c) = (loc.row - 1, loc.col - 1);
        let g2 = self.place(loc, v).grid;
        self.lemma_place_synced(loc, v);
        lemma_put_wf(self.grid, n, loc, Some(v));
        assert forall|i1: int, k1: int, i2: int, k2: int|
            0 <= i1 < n * n && 0 <= k1 < n * n && 0 <= i2 < n * n && 0 <= k2 < n * n && peers(
                i1,
                k1,
                i2,
                k2,
                n,
            ) && #[trigger] val(g2, i1, k1) != 0 implies val(g2, i1, k1) != #[trigger] val(
            g2,
            i2,
            k2,
        ) by {
            if i1 == r && k1 == c {
                if val(g2, i2, k2) == v {
                    let kind = choose|kind: int|
                        0 <= kind < 3 && #[trigger] line_of(kind, i1, k1, n) == line_of(kind, i2, k2, n);
                    assert(val(self.grid, i2, k2) == v);
                    assert(line_has(self.grid, n, kind, line_of(kind, r, c, n), v as int));
                }
            } else if i2 == r && k2 == c {
                if val(g2, i1, k1) == v {
                    let kind = choose|kind: int|
                        0 <= kind < 3 && #[trigger] line_of(kind, i1, k1, n) == line_of(kind, i2, k2, n);
                    assert(val(self.grid, i1, k1) == v);
                    assert(line_has(self.grid, n, kind, line_of(kind, r, c, n), v as int));
                }
            } else {
                assert(val(self.grid, i1, k1) != val(self.grid, i2, k2));
            }
        }
    }

    /// When the tables agree with the grid, the candidates at `loc` are exactly the values of
    /// `1..=top` that stand nowhere in its row, its column and its box.
    pub proof fn lemma_candidates(self, loc: Loc)
        requires
            self.wf(),
            self.synced(),
            loc.in_grid(self.top()),
        ensures
            forall|v: int|
                1 <= v <= self.top() ==> (self.candidates(loc).contains(v as u8) <==> absent(
                    self.grid,
                    self.size,
                    loc,
                    v,
                )),
            forall|j: int|
                0 <= j < self.candidates(loc).len() ==> {
                    let v = #[trigger] self.candidates(loc)[j];
                    &&& 1 <= v <= self.top()
                    &&& absent(self.grid, self.size, loc, v as int)
                },
    {
        let n = self.size;
        let (r, c) = (loc.row - 1, loc.col - 1);
        crate::loc::lemma_size_pos(n);
        crate::loc::lemma_box_in_grid(loc.row as int, loc.col as int, n);
        crate::constraints::lemma_free_upto(self.rows, self.cols, self.sqrs, n, loc, n * n);
        assert forall|v: int| 1 <= v <= n * n implies crate::constraints::free(
            self.rows,
            self.cols,
            self.sqrs,
            n,
            loc,
            v,
        ) == absent(self.grid, n, loc, v) by {
            assert(self.table(0)[r][v - 1] == line_has(self.grid, n, 0, r, v));
            assert(self.table(1)[c][v - 1] == line_has(self.grid, n, 1, c, v));
            assert(self.table(2)[box0(r, c, n)][v - 1] == line_has(self.grid, n, 2, box0(r, c, n), v));
            assert(box_of(loc.row as int, loc.col as int, n) - 1 == box0(r, c, n));
            if !line_has(self.grid, n, 0, r, v) && !line_has(self.grid, n, 1, c, v) && !line_has(
                self.grid,
                n,
                2,
                box0(r, c, n),
                v,
            ) {
                assert forall|kind: int| 0 <= kind < 3 implies !#[trigger] line_has(
                    self.grid,
                    n,
                    kind,
                    line_of(kind, r, c, n),
                    v,
                ) by {
                    if kind == 0 {
                    } else if kind == 1 {
                    } else {
                    }
                }
            }
            if absent(self.grid, n, loc, v) {
                assert(!line_has(self.grid, n, 0, line_of(0, r, c, n), v));
                assert(!line_has(self.grid, n, 1, line_of(1, r, c, n), v));
                assert(!line_has(self.grid, n, 2, line_of(2, r, c, n), v));
            }
        }
        let cand = self.candidates(loc);
        assert forall|v: int| 1 <= v <= n * n && cand.contains(v as u8) implies absent(
            self.grid,
            n,
            loc,
            v,
        ) by {
            let j = choose|j: int| 0 <= j < cand.len() && cand[j] == v as u8;
            assert(cand[j] as int == v);
        }
    }

    /// At an empty cell of a state whose tables agree with the grid, the value that any solution puts
    /// there is a candidate, and the solution also solves the grid with that
    /// value put in.
    pub proof fn lemma_solution_candidate(self, loc: Loc, sol: Seq<Seq<Option<u8>>>)
        requires
            self.wf(),
            self.synced(),
            loc.in_grid(self.top()),
            val(self.grid, loc.row - 1, loc.col - 1) == 0,
            solution_of(self.grid, sol, self.size),
        ensures
            1 <= val(sol, loc.row - 1, loc.col - 1) <= self.top(),
            self.candidates(loc).contains(val(sol, loc.row - 1, loc.col - 1) as u8),
            solution_of(
                put(self.grid, loc, Some(val(sol, loc.row - 1, loc.col - 1) as u8)),
                sol,
                self.size,
            ),
    {
        let n = self.size;
        let (r, c) = (loc.row - 1, loc.col - 1);
        let w = val(sol, r, c);
        assert forall|kind: int| 0 <= kind < 3 implies !#[trigger] line_has(
            self.grid,
            n,
            kind,
            line_of(kind, r, c, n),
            w,
        ) by {
            if line_has(self.grid, n, kind, line_of(kind, r, c, n), w) {
                let (a, b) = choose|a: int, b: int|
                    0 <= a < n * n && 0 <= b < n * n && line_of(kind, a, b, n) == line_of(kind, r, c, n)
                        && #[trigger] val(self.grid, a, b) == w;
                assert(val(sol, a, b) == w);
                assert(peers(r, c, a, b, n));
            }
        }
        assert(val(sol, r, c) != 0);
        assert(absent(self.grid, n, loc, w));
        self.lemma_candidates(loc);
        assert(self.candidates(loc).contains(w as u8));
        let g2 = put(self.grid, loc, Some(w as u8));
        lemma_put_wf(self.grid, n, loc, Some(w as u8));
        assert forall|i: int, k: int|
            0 <= i < n * n && 0 <= k < n * n && #[trigger] val(g2, i, k) != 0 implies val(sol, i, k)
            == val(g2, i, k) by {
            if !(i == r && k == c) {
                assert(val(self.grid, i, k) != 0);
            }
        }
    }

    /// A state whose tables agree with its full grid is a solution of itself exactly when
    /// every value is marked everywhere; no other grid solves it.
    pub proof fn lemma_full_solved(self)
        requires
            self.wf(),
            self.synced(),
            full(self.grid, self.size),
        ensures
            self.all_used() <==> solution_of(self.grid, self.grid, self.size),
            forall|sol: Seq<Seq<Option<u8>>>|
                #[trigger] solution_of(self.grid, sol, self.size) ==> solution_of(
                    self.grid,
                    self.grid,
                    self.size,
                ),
    {
        let n = self.size;
        let g = self.grid;
        assert(extends(g, g, n));
        if self.all_used() {
            self.lemma_marked_conflict_free();
            assert forall|kind: int, line: int, v: int|
                0 <= kind < 3 && 0 <= line < n * n && 1 <= v <= n * n implies #[trigger] line_has(
                g,
                n,
                kind,
                line,
                v,
            ) by {
                assert(self.table(kind)[line][v - 1]);
            }
        }
        if solution_of(g, g, n) {
            assert forall|kind: int, i: int, j: int|
                0 <= kind < 3 && 0 <= i < self.table(kind).len() && 0 <= j < self.table(
                    kind,
                )[i].len() implies #[trigger] self.table(kind)[i][j] by {
                assert(line_has(g, n, kind, i, j + 1));
            }
            assert(crate::checker::all_marked(self.table(0)));
            assert(crate::checker::all_marked(self.table(1)));
            assert(crate::checker::all_marked(self.table(2)));
        }
        assert forall|sol: Seq<Seq<Option<u8>>>| #[trigger] solution_of(g, sol, n) implies solution_of(
            g,
            g,
            n,
        ) by {
            assert forall|i: int, k: int| 0 <= i < n * n && 0 <= k < n * n implies #[trigger] val(g, i, k)
                == val(sol, i, k) by {
                assert(val(g, i, k) != 0);
            }
            assert forall|i1: int, k1: int, i2: int, k2: int|
                0 <= i1 < n * n && 0 <= k1 < n * n && 0 <= i2 < n * n && 0 <= k2 < n * n && peers(
                    i1,
                    k1,
                    i2,
                    k2,
                    n,
                ) && #[trigger] val(g, i1, k1) != 0 implies val(g, i1, k1) != #[trigger] val(g, i2, k2) by {
                assert(val(sol, i1, k1) != val(sol, i2, k2));
            }
            assert forall|kind: int, line: int, v: int|
                0 <= kind < 3 && 0 <= line < n * n && 1 <= v <= n * n implies #[trigger] line_has(
                g,
                n,
                kind,
                line,
                v,
            ) by {
                assert(line_has(sol, n, kind, line, v));
                let (a, b) = choose|a: int, b: int|
                    0 <= a < n * n && 0 <= b < n * n && line_of(kind, a, b, n) == line && #[trigger] val(
                        sol,
                        a,
                        b,
                    ) == v;
                assert(val(g, a, b) != 0);
                assert(val(g, a, b) == v);
            }
        }
    }

    /// A line of a state whose tables mark every value holds each value of
    /// `1..=top`.
    pub proof fn lemma_marked_covers(self)
        requires
            self.wf(),
            self.synced(),
            self.all_used(),
        ensures
            covers(self.grid, self.size),
    {
        let n = self.size;
        assert forall|kind: int, line: int, v: int|
            0 <= kind < 3 && 0 <= line < n * n && 1 <= v <= n * n implies #[trigger] line_has(
            self.grid,
            n,
            kind,
            line,
            v,
        ) by {
            lemma_all_marked_entry(self.table(kind), n * n, line, v - 1);
        }
    }

    /// Tables that agree with the grid and mark every value everywhere leave
    /// no value twice on a line: each line, of `top` cells, holds each of the
    /// `top` values, so it holds none twice.
    pub proof fn lemma_marked_conflict_free(self)
        requires
            self.wf(),
            self.synced(),
            self.all_used(),
        ensures
            conflict_free(self.grid, self.size),
    {
        let n = self.size;
        let t = n * n;
        let g = self.grid;
        self.lemma_marked_covers();
        assert forall|i1: int, k1: int, i2: int, k2: int|
            0 <= i1 < t && 0 <= k1 < t && 0 <= i2 < t && 0 <= k2 < t && peers(i1, k1, i2, k2, n)
                && #[trigger] val(g, i1, k1) != 0 implies val(g, i1, k1) != #[trigger] val(g, i2, k2) by {
            if val(g, i1, k1) == val(g, i2, k2) {
                crate::loc::lemma_size_pos(n);
                let kind = choose|kind: int| 0 <= kind < 3 && #[trigger] line_of(kind, i1, k1, n) == line_of(kind, i2, k2, n);
                let l = line_of(kind, i1, k1, n);
                crate::loc::lemma_box_in_grid(i1 + 1, k1 + 1, n);
                assert(0 <= l < t);
                let cell = |u: int|
                    choose|a: int, b: int|
                        0 <= a < t && 0 <= b < t && line_of(kind, a, b, n) == l && #[trigger] val(g, a, b) == u;
                let f = |u: int| pos(kind, cell(u).0, cell(u).1, n);
                let xs = set_int_range(1, t + 1);
                let ys = xs.map(f);
                let zs = set_int_range(0, t);
                assert forall|u: int| xs.contains(u) implies {
                    let c = #[trigger] cell(u);
                    &&& 0 <= c.0 < t
                    &&& 0 <= c.1 < t
                    &&& line_of(kind, c.0, c.1, n) == l
                    &&& val(g, c.0, c.1) == u
                    &&& 0 <= f(u) < t
                } by {
                    assert(line_has(g, n, kind, l, u));
                    let c = cell(u);
                    lemma_pos(kind, c.0, c.1, i1, k1, n);
                }
                assert forall|u1: int, u2: int| xs.contains(u1) && xs.contains(u2) && #[trigger] f(u1) == #[trigger] f(u2) implies u1 == u2 by {
                    let c1 = cell(u1);
                    let c2 = cell(u2);
                    lemma_pos(kind, c1.0, c1.1, c2.0, c2.1, n);
                }
                assert(injective_on(f, xs));
                lemma_int_range(1, t + 1);
                lemma_int_range(0, t);
                lemma_map_size(xs, ys, f);
                assert(ys.subset_of(zs)) by {
                    assert forall|y: int| ys.contains(y) implies zs.contains(y) by {
                        let u = choose|u: int| xs.contains(u) && f(u) == y;
                    }
                }
                lemma_subset_equality(ys, zs);
                let v = val(g, i1, k1);
                lemma_pos(kind, i1, k1, i2, k2, n);
                lemma_pos(kind, i2, k2, i1, k1, n);
                let p1 = pos(kind, i1, k1, n);
                let p2 = pos(kind, i2, k2, n);
                assert(zs.contains(p1));
                assert(zs.contains(p2));
                let u1 = choose|u: int| xs.contains(u) && f(u) == p1;
                let u2 = choose|u: int| xs.contains(u) && f(u) == p2;
                let c1 = cell(u1);
                let c2 = cell(u2);
                lemma_pos(kind, c1.0, c1.1, i1, k1, n);
                lemma_pos(kind, c2.0, c2.1, i2, k2, n);
                assert(u1 == v);
                assert(u2 == v);
            }
        }
    }
}

} // verus!
