//! Properties of the grid operations, stated over the model of `grid`.
use vstd::prelude::*;
use crate::checker::{mark, square_table};
use crate::constraints::{free, lemma_free_upto};
use crate::grid::{
    BoardState, absent, conflict_free, covers, full, grid_wf, line_has, line_of, put, val, lemma_put_put,
    lemma_put_wf, solution_of, solvable,
};
use vstd::relations::injective_on;
use vstd::set_lib::{lemma_int_range, lemma_len_subset, lemma_map_size, set_int_range};
use crate::loc::{Loc, box_of, lemma_box_in_grid, lemma_size_pos};

verus! {

/// Setting an entry and then setting it again gives what the second setting
/// says; setting it to what it holds changes nothing.
proof fn lemma_mark_mark(t: Seq<Seq<bool>>, top: int, line: int, v: int, b1: bool, b2: bool)
    requires
        square_table(t, top),
        1 <= line <= top,
        1 <= v <= top,
    ensures
        mark(mark(t, line, v, b1), line, v, b2) == mark(t, line, v, b2),
        mark(t, line, v, t[line - 1][v - 1]) == t,
{
    assert(mark(mark(t, line, v, b1), line, v, b2) =~~= mark(t, line, v, b2));
    assert(mark(t, line, v, t[line - 1][v - 1]) =~~= t);
}

/// Marking an entry, unmarking it and marking it again is marking it once.
proof fn lemma_remark(t: Seq<Seq<bool>>, top: int, line: int, v: int)
    requires
        square_table(t, top),
        1 <= line <= top,
        1 <= v <= top,
    ensures
        mark(mark(mark(t, line, v, true), line, v, false), line, v, true) == mark(t, line, v, true),
{
    crate::checker::lemma_mark_square(t, top, line, v, true);
    lemma_mark_mark(mark(t, line, v, true), top, line, v, false, true);
    lemma_mark_mark(t, top, line, v, true, true);
}

/// Emptying a cell removes a value from no line but the ones through it,
/// and there only the value it held.
proof fn lemma_absent_after_clear(g: Seq<Seq<Option<u8>>>, n: int, loc: Loc, v: int)
    requires
        grid_wf(g, n),
        loc.in_grid(n * n),
        1 <= v,
        absent(g, n, loc, v),
    ensures
        absent(put(g, loc, None), n, loc, v),
{
    let g2 = put(g, loc, None);
    lemma_put_wf(g, n, loc, None);
    assert forall|kind: int| 0 <= kind < 3 implies !#[trigger] line_has(
        g2,
        n,
        kind,
        line_of(kind, loc.row - 1, loc.col - 1, n),
        v,
    ) by {
        let l = line_of(kind, loc.row - 1, loc.col - 1, n);
        if line_has(g2, n, kind, l, v) {
            let (a, b) = choose|a: int, b: int|
                0 <= a < n * n && 0 <= b < n * n && line_of(kind, a, b, n) == l && #[trigger] val(g2, a, b)
                    == v;
            assert(val(g, a, b) == v);
            assert(line_has(g, n, kind, l, v));
        }
    }
}

/// In a valid grid the candidates of a cell are exactly the values of
/// `1..=top` that are placed nowhere in its row, its column or its box; and
/// the grid stays valid under every placement of a candidate and under
/// every emptying of a cell, so this holds after any run of such edits.
pub proof fn lemma_candidates_exact(s: BoardState, loc: Loc, value: Option<u8>)
    requires
        s.valid(),
        loc.in_grid(s.top()),
        value matches Some(v) ==> s.candidates(loc).contains(v),
    ensures
        forall|v: int|
            1 <= v <= s.top() ==> (s.candidates(loc).contains(v as u8) <==> absent(
                s.grid,
                s.size,
                loc,
                v,
            )),
        s.after_set(loc, value).valid(),
{
    s.lemma_candidates(loc);
    s.lemma_clear_valid(loc);
    if let Some(v) = value {
        let j = choose|j: int| 0 <= j < s.candidates(loc).len() && s.candidates(loc)[j] == v;
        assert(absent(s.grid, s.size, loc, v as int));
        lemma_absent_after_clear(s.grid, s.size, loc, v as int);
        lemma_put_wf(s.grid, s.size, loc, None);
        s.clear(loc).lemma_place_valid(loc, v);
    }
}

/// Setting a cell twice to the same value leaves the grid and its tables as
/// setting it once does.
pub proof fn lemma_set_twice(s: BoardState, loc: Loc, value: Option<u8>)
    requires
        s.wf(),
        loc.in_grid(s.top()),
        value matches Some(v) ==> 1 <= v <= s.top(),
    ensures
        s.after_set(loc, value).after_set(loc, value) == s.after_set(loc, value),
{
    let n = s.size;
    let (r, c) = (loc.row - 1, loc.col - 1);
    lemma_size_pos(n);
    lemma_box_in_grid(loc.row as int, loc.col as int, n);
    let bx = box_of(loc.row as int, loc.col as int, n);
    let s1 = s.after_set(loc, value);
    let c1 = s.clear(loc);
    let o = val(s.grid, r, c);
    lemma_put_wf(s.grid, n, loc, None);
    lemma_put_put(s.grid, n, loc, None, None);
    if o != 0 {
        crate::checker::lemma_mark_square(s.rows, n * n, loc.row as int, o, false);
        crate::checker::lemma_mark_square(s.cols, n * n, loc.col as int, o, false);
        crate::checker::lemma_mark_square(s.sqrs, n * n, bx, o, false);
    }
    match value {
        None => {
            assert(val(c1.grid, r, c) == 0);
            assert(c1.clear(loc) == c1);
        },
        Some(v) => {
            let g1 = put(c1.grid, loc, Some(v));
            lemma_put_wf(c1.grid, n, loc, Some(v));
            lemma_put_put(c1.grid, n, loc, Some(v), None);
            lemma_put_put(c1.grid, n, loc, None, Some(v));
            lemma_put_put(s.grid, n, loc, None, Some(v));
            assert(val(s1.grid, r, c) == v);
            lemma_put_wf(g1, n, loc, None);
            lemma_put_put(g1, n, loc, None, Some(v));
            lemma_put_put(c1.grid, n, loc, Some(v), Some(v));
            lemma_remark(c1.rows, n * n, loc.row as int, v as int);
            lemma_remark(c1.cols, n * n, loc.col as int, v as int);
            lemma_remark(c1.sqrs, n * n, bx, v as int);
            assert(s1.clear(loc).place(loc, v) == s1);
        },
    }
}

/// Putting a candidate into an empty cell and then emptying the cell
/// restores the grid and its tables exactly.
pub proof fn lemma_set_then_clear(s: BoardState, loc: Loc, v: u8)
    requires
        s.wf(),
        loc.in_grid(s.top()),
        val(s.grid, loc.row - 1, loc.col - 1) == 0,
        s.candidates(loc).contains(v),
    ensures
        s.after_set(loc, Some(v)).after_set(loc, None) == s,
{
    let n = s.size;
    let (r, c) = (loc.row - 1, loc.col - 1);
    lemma_size_pos(n);
    lemma_box_in_grid(loc.row as int, loc.col as int, n);
    let bx = box_of(loc.row as int, loc.col as int, n);
    lemma_free_upto(s.rows, s.cols, s.sqrs, n, loc, n * n);
    let j = choose|j: int| 0 <= j < s.candidates(loc).len() && s.candidates(loc)[j] == v;
    assert(free(s.rows, s.cols, s.sqrs, n, loc, v as int));
    lemma_put_put(s.grid, n, loc, None, None);
    assert(s.grid[r][c] is None);
    assert(s.clear(loc) == s);
    let s1 = s.place(loc, v);
    lemma_put_wf(s.grid, n, loc, Some(v));
    assert(val(s1.grid, r, c) == v);
    lemma_put_put(s.grid, n, loc, Some(v), None);
    lemma_mark_mark(s.rows, n * n, loc.row as int, v as int, true, false);
    lemma_mark_mark(s.cols, n * n, loc.col as int, v as int, true, false);
    lemma_mark_mark(s.sqrs, n * n, bx, v as int, true, false);
}

/// On a grid whose tables mark every value everywhere, no cell has a
/// candidate: every placement is refused, the value a cell already holds
/// included.
pub proof fn lemma_solved_refuses(s: BoardState, loc: Loc)
    requires
        s.wf(),
        s.all_used(),
        loc.in_grid(s.top()),
    ensures
        s.candidates(loc).len() == 0,
{
    let n = s.size;
    lemma_size_pos(n);
    lemma_box_in_grid(loc.row as int, loc.col as int, n);
    lemma_free_upto(s.rows, s.cols, s.sqrs, n, loc, n * n);
    if s.candidates(loc).len() > 0 {
        let v = s.candidates(loc)[0];
        assert(s.rows[loc.row - 1][v - 1]);
    }
}

/// A row that holds every value of `1..=top` has no empty cell.
proof fn lemma_covered_row_full(g: Seq<Seq<Option<u8>>>, n: int, r: int, c: int)
    requires
        grid_wf(g, n),
        0 <= r < n * n,
        0 <= c < n * n,
        forall|v: int| 1 <= v <= n * n ==> #[trigger] line_has(g, n, 0, r, v),
    ensures
        val(g, r, c) != 0,
{
    let t = n * n;
    if val(g, r, c) == 0 {
        let f = |v: int| choose|b: int| 0 <= b < t && val(g, r, b) == v;
        let xs = set_int_range(1, t + 1);
        let ys = xs.map(f);
        let zs = set_int_range(0, t).remove(c);
        assert forall|v: int| xs.contains(v) implies 0 <= #[trigger] f(v) < t && val(g, r, f(v)) == v by {
            assert(line_has(g, n, 0, r, v));
            let (a, b) = choose|a: int, b: int|
                0 <= a < t && 0 <= b < t && line_of(0, a, b, n) == r && #[trigger] val(g, a, b) == v;
            assert(0 <= b < t && val(g, r, b) == v);
        }
        assert(injective_on(f, xs));
        lemma_int_range(1, t + 1);
        lemma_int_range(0, t);
        lemma_map_size(xs, ys, f);
        assert(ys.subset_of(zs)) by {
            assert forall|y: int| ys.contains(y) implies zs.contains(y) by {
                let v = choose|v: int| xs.contains(v) && f(v) == y;
            }
        }
        lemma_len_subset(ys, zs);
    }
}

/// When the tables agree with the grid, `is_solved` holds exactly when
/// every row, column and box holds each value of `1..=top` exactly once;
/// and then no cell is empty.
pub proof fn lemma_solved_exactly(s: BoardState)
    requires
        s.wf(),
        s.synced(),
    ensures
        s.all_used() <==> covers(s.grid, s.size) && conflict_free(s.grid, s.size),
        s.all_used() ==> full(s.grid, s.size),
{
    let n = s.size;
    let g = s.grid;
    if s.all_used() {
        s.lemma_marked_conflict_free();
        assert forall|kind: int, line: int, v: int|
            0 <= kind < 3 && 0 <= line < n * n && 1 <= v <= n * n implies #[trigger] line_has(
            g,
            n,
            kind,
            line,
            v,
        ) by {
            assert(s.table(kind)[line][v - 1]);
        }
        assert forall|i: int, k: int| 0 <= i < n * n && 0 <= k < n * n implies #[trigger] val(g, i, k)
            != 0 by {
            assert forall|v: int| 1 <= v <= n * n implies #[trigger] line_has(g, n, 0, i, v) by {
                assert(line_has(g, n, 0, i, v));
            }
            lemma_covered_row_full(g, n, i, k);
        }
    }
    if covers(g, n) {
        assert forall|kind: int, i: int, j: int|
            0 <= kind < 3 && 0 <= i < s.table(kind).len() && 0 <= j < s.table(kind)[i].len() implies #[trigger] s.table(
            kind,
        )[i][j] by {
            assert(line_has(g, n, kind, i, j + 1));
        }
        assert(crate::checker::all_marked(s.table(0)));
        assert(crate::checker::all_marked(s.table(1)));
        assert(crate::checker::all_marked(s.table(2)));
    }
}

/// A solved grid whose tables agree with it has exactly one solution, itself: solving it again
/// gives it back unchanged.
pub proof fn lemma_solved_fixed_point(s: BoardState)
    requires
        s.wf(),
        s.synced(),
        s.all_used(),
    ensures
        solvable(s.grid, s.size),
        forall|x: Seq<Seq<Option<u8>>>| #[trigger] solution_of(s.grid, x, s.size) ==> x == s.grid,
{
    let n = s.size;
    let g = s.grid;
    lemma_solved_exactly(s);
    s.lemma_full_solved();
    assert(solution_of(g, g, n));
    assert forall|x: Seq<Seq<Option<u8>>>| #[trigger] solution_of(g, x, n) implies x == g by {
        assert forall|i: int| 0 <= i < n * n implies #[trigger] x[i] == g[i] by {
            assert forall|k: int| 0 <= k < n * n implies #[trigger] x[i][k] == g[i][k] by {
                assert(val(g, i, k) != 0);
                assert(val(x, i, k) == val(g, i, k));
            }
            assert(x[i] =~= g[i]);
        }
        assert(x =~= g);
    }
}

/// An empty cell whose row, column and box between them already hold every
/// value of `1..=top` leaves the grid without a solution.
pub proof fn lemma_blocked_cell_unsolvable(s: BoardState, loc: Loc)
    requires
        s.wf(),
        s.synced(),
        loc.in_grid(s.top()),
        val(s.grid, loc.row - 1, loc.col - 1) == 0,
        forall|v: int| 1 <= v <= s.top() ==> !#[trigger] absent(s.grid, s.size, loc, v),
    ensures
        !solvable(s.grid, s.size),
{
    if solvable(s.grid, s.size) {
        let x = choose|x: Seq<Seq<Option<u8>>>| solution_of(s.grid, x, s.size);
        s.lemma_solution_candidate(loc, x);
        let w = val(x, loc.row - 1, loc.col - 1);
        s.lemma_candidates(loc);
        assert(absent(s.grid, s.size, loc, w));
    }
}

} // verus!
