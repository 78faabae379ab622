//! The grid as text: a cell as its number, and the whole grid as a boxed
//! diagram.
use vstd::prelude::*;
use crate::board::Board;
use crate::loc::Loc;
use vstd::string::StringExecFns;

verus! {

/// The decimal digit `d`.
pub open spec fn digit(d: int) -> char {
    if d == 0 {
        '0'
    } else if d == 1 {
        '1'
    } else if d == 2 {
        '2'
    } else if d == 3 {
        '3'
    } else if d == 4 {
        '4'
    } else if d == 5 {
        '5'
    } else if d == 6 {
        '6'
    } else if d == 7 {
        '7'
    } else if d == 8 {
        '8'
    } else {
        '9'
    }
}

/// `v` written in decimal, without leading zeros.
pub open spec fn decimal(v: nat) -> Seq<char>
    decreases v,
{
    if v < 10 {
        seq![digit(v as int)]
    } else {
        decimal(v / 10).push(digit((v % 10) as int))
    }
}

/// The text of a cell: its value, or `■` when it is empty.
pub open spec fn cell_text(x: Option<u8>) -> Seq<char> {
    match x {
        Some(v) => decimal(v as nat),
        None => seq!['■'],
    }
}

/// `k` copies of `part`, with `sep` between each two.
pub open spec fn repeat_join(part: Seq<char>, k: nat, sep: Seq<char>) -> Seq<char>
    decreases k,
{
    if k == 0 {
        Seq::empty()
    } else if k == 1 {
        part
    } else {
        repeat_join(part, (k - 1) as nat, sep) + sep + part
    }
}

/// A full-width line of the diagram: `n` groups of `n` copies of `unit`,
/// joined by `inner` inside a group and by `outer` between groups, framed
/// by `left` and `right`.
pub open spec fn bar(n: nat, left: Seq<char>, unit: Seq<char>, inner: Seq<char>, outer: Seq<char>, right: Seq<char>) -> Seq<char> {
    left + repeat_join(repeat_join(unit, n, inner), n, outer) + right + seq!['\n']
}

/// The line that follows the cell in column `k` (1-based): thin inside a
/// box, thick at its edge.
pub open spec fn cell_sep(k: int, n: int) -> Seq<char> {
    if k % n != 0 {
        seq!['│']
    } else {
        seq!['║']
    }
}

/// The cells of columns `1..=k` of row `i` (0-based) of `g`, each followed
/// by its separator.
pub open spec fn row_cells(g: Seq<Seq<Option<u8>>>, n: int, i: int, k: nat) -> Seq<char>
    decreases k,
{
    if k == 0 {
        Seq::empty()
    } else {
        row_cells(g, n, i, (k - 1) as nat) + seq![' '] + cell_text(g[i][k - 1]) + seq![' '] + cell_sep(
            k as int,
            n,
        )
    }
}

/// The line between row `r` (1-based) and the next: thick at a box edge,
/// thin inside a box.
pub open spec fn between(n: nat, r: int) -> Seq<char> {
    if r % (n as int) == 0 {
        bar(n, seq!['╠'], seq!['═', '═', '═'], seq!['═'], seq!['╬'], seq!['╣'])
    } else {
        bar(n, seq!['║'], seq!['─', '─', '─'], seq!['┼'], seq!['║'], seq!['║'])
    }
}

/// Rows `1..=r` of the diagram of `g`, with the lines between them.
pub open spec fn rows_text(g: Seq<Seq<Option<u8>>>, n: nat, r: nat) -> Seq<char>
    decreases r,
{
    if r == 0 {
        Seq::empty()
    } else {
        let top = n * n;
        let line = seq!['║'] + row_cells(g, n as int, r - 1, top) + seq!['\n'];
        rows_text(g, n, (r - 1) as nat) + line + if r < top {
            between(n, r as int)
        } else {
            Seq::empty()
        }
    }
}

/// The boxed diagram of a grid of `n x n` boxes.
pub open spec fn diagram(g: Seq<Seq<Option<u8>>>, n: nat) -> Seq<char> {
    bar(n, seq!['╔'], seq!['═', '═', '═'], seq!['═'], seq!['╦'], seq!['╗']) + rows_text(g, n, n * n)
        + bar(n, seq!['╚'], seq!['═', '═', '═'], seq!['═'], seq!['╩'], seq!['╝'])
}

/// The text of the digit `d`.
fn digit_str(d: u8) -> (r: &'static str)
    requires
        d < 10,
    ensures
        r@ == seq![digit(d as int)],
{
    if d == 0 {
        proof { reveal_strlit("0"); }
        "0"
    } else if d == 1 {
        proof { reveal_strlit("1"); }
        "1"
    } else if d == 2 {
        proof { reveal_strlit("2"); }
        "2"
    } else if d == 3 {
        proof { reveal_strlit("3"); }
        "3"
    } else if d == 4 {
        proof { reveal_strlit("4"); }
        "4"
    } else if d == 5 {
        proof { reveal_strlit("5"); }
        "5"
    } else if d == 6 {
        proof { reveal_strlit("6"); }
        "6"
    } else if d == 7 {
        proof { reveal_strlit("7"); }
        "7"
    } else if d == 8 {
        proof { reveal_strlit("8"); }
        "8"
    } else {
        proof { reveal_strlit("9"); }
        "9"
    }
}

/// Appends the text of a cell.
fn push_cell(out: &mut String, x: Option<u8>)
    ensures
        final(out)@ == old(out)@ + cell_text(x),
{
    match x {
        Some(v) => {
            if v >= 100 {
                out.append(digit_str(v / 100));
            }
            if v >= 10 {
                out.append(digit_str((v / 10) % 10));
            }
            out.append(digit_str(v % 10));
            proof {
                let n = v as nat;
                if n >= 100 {
                    assert(decimal(n / 100) == seq![digit((n / 100) as int)]);
                    assert(decimal(n / 10) == decimal(n / 10 / 10).push(digit(((n / 10) % 10) as int)));
                    assert(n / 10 / 10 == n / 100);
                } else if n >= 10 {
                    assert(decimal(n / 10) == seq![digit((n / 10) as int)]);
                    assert((n / 10) % 10 == n / 10);
                }
            }
        },
        None => {
            proof { reveal_strlit("■"); }
            out.append("■");
        },
    }
}

/// What the pieces of the diagram hold.
proof fn lemma_pieces()
    ensures
        "╔"@ == seq!['╔'],
        "═══"@ == seq!['═', '═', '═'],
        "═"@ == seq!['═'],
        "╦"@ == seq!['╦'],
        "╗"@ == seq!['╗'],
        "╚"@ == seq!['╚'],
        "╩"@ == seq!['╩'],
        "╝"@ == seq!['╝'],
        "╠"@ == seq!['╠'],
        "╬"@ == seq!['╬'],
        "╣"@ == seq!['╣'],
        "║"@ == seq!['║'],
        "───"@ == seq!['─', '─', '─'],
        "┼"@ == seq!['┼'],
        "│"@ == seq!['│'],
        " "@ == seq![' '],
        "\n"@ == seq!['\n'],
{
    reveal_strlit("╔");
    reveal_strlit("═══");
    reveal_strlit("═");
    reveal_strlit("╦");
    reveal_strlit("╗");
    reveal_strlit("╚");
    reveal_strlit("╩");
    reveal_strlit("╝");
    reveal_strlit("╠");
    reveal_strlit("╬");
    reveal_strlit("╣");
    reveal_strlit("║");
    reveal_strlit("───");
    reveal_strlit("┼");
    reveal_strlit("│");
    reveal_strlit(" ");
    reveal_strlit("\n");
}

/// Appends `k` copies of `part` with `sep` between each two.
fn push_repeat(out: &mut String, part: &str, k: u8, sep: &str)
    ensures
        final(out)@ == old(out)@ + repeat_join(part@, k as nat, sep@),
{
    let mut j: u8 = 0;
    while j < k
        invariant
            j <= k,
            out@ == old(out)@ + repeat_join(part@, j as nat, sep@),
        decreases k - j,
    {
        if j > 0 {
            out.append(sep);
        }
        out.append(part);
        proof {
            assert(out@ =~= old(out)@ + repeat_join(part@, (j + 1) as nat, sep@));
        }
        j = j + 1;
    }
}

/// Appends a full-width line of the diagram, as `bar` says.
fn push_bar(out: &mut String, n: u8, left: &str, unit: &str, inner: &str, outer: &str, right: &str)
    ensures
        final(out)@ == old(out)@ + bar(n as nat, left@, unit@, inner@, outer@, right@),
{
    out.append(left);
    let ghost group = repeat_join(unit@, n as nat, inner@);
    let mut j: u8 = 0;
    while j < n
        invariant
            j <= n,
            group == repeat_join(unit@, n as nat, inner@),
            out@ == old(out)@ + left@ + repeat_join(group, j as nat, outer@),
        decreases n - j,
    {
        if j > 0 {
            out.append(outer);
        }
        push_repeat(out, unit, n, inner);
        proof {
            assert(out@ =~= old(out)@ + left@ + repeat_join(group, (j + 1) as nat, outer@));
        }
        j = j + 1;
    }
    out.append(right);
    proof {
        reveal_strlit("\n");
    }
    out.append("\n");
    assert(out@ =~= old(out)@ + bar(n as nat, left@, unit@, inner@, outer@, right@));
}

impl Board {
    /// The text of the cell at `loc`: its value in decimal, or `■` when it
    /// is empty.
    pub fn get_str(&self, loc: &Loc) -> (r: String)
        requires
            self.wf(),
            loc.in_grid(self@.top()),
        ensures
            r@ == cell_text(self@.grid[loc.row - 1][loc.col - 1]),
    {
        let mut out = String::new();
        push_cell(&mut out, self.get(loc));
        assert(out@ =~= cell_text(self@.grid[loc.row - 1][loc.col - 1]));
        out
    }

    /// The grid as a boxed diagram, one text line per row of cells, with
    /// thick lines at the edges of boxes and thin ones inside them.
    pub fn draw(&self) -> (r: String)
        requires
            self.wf(),
        ensures
            r@ == diagram(self@.grid, self@.size as nat),
    {
        let ghost g = self@.grid;
        let ghost nn = self@.size as nat;
        let n = self.size();
        let top = self.top();
        proof {
            lemma_pieces();
        }
        let mut out = String::new();
        push_bar(&mut out, n, "╔", "═══", "═", "╦", "╗");
        let ghost upper = out@;
        let mut row: u16 = 1;
        while row <= top as u16
            invariant
                self.wf(),
                g == self@.grid,
                nn == self@.size,
                n == nn,
                top == nn * nn,
                1 <= row <= top as int + 1,
                out@ == upper + rows_text(g, nn, (row - 1) as nat),
            decreases top as int + 1 - row,
        {
            proof {
                crate::loc::lemma_size_pos(nn as int);
                lemma_pieces();
            }
            out.append("║");
            assert(out@ =~= upper + rows_text(g, nn, (row - 1) as nat) + seq!['║'] + row_cells(g, n as int, row - 1, 0));
            let mut col: u16 = 1;
            while col <= top as u16
                invariant
                    self.wf(),
                    g == self@.grid,
                    n == self@.size,
                    1 <= n,
                    top == n * n,
                    1 <= row <= top,
                    1 <= col <= top as int + 1,
                    out@ == upper + rows_text(g, nn, (row - 1) as nat) + seq!['║'] + row_cells(
                        g,
                        n as int,
                        row - 1,
                        (col - 1) as nat,
                    ),
                decreases top as int + 1 - col,
            {
                let ghost before = out@;
                proof {
                    lemma_pieces();
                }
                out.append(" ");
                let loc = Loc::new(row as u8, col as u8);
                push_cell(&mut out, self.get(&loc));
                out.append(" ");
                if col % (n as u16) != 0 {
                    out.append("│");
                } else {
                    out.append("║");
                }
                proof {
                    assert(out@ =~= before + seq![' '] + cell_text(g[row - 1][col - 1]) + seq![' '] + cell_sep(
                        col as int,
                        n as int,
                    ));
                }
                col = col + 1;
            }
            out.append("\n");
            let ghost line_end = out@;
            if row < top as u16 {
                if row % (n as u16) == 0 {
                    push_bar(&mut out, n, "╠", "═══", "═", "╬", "╣");
                } else {
                    push_bar(&mut out, n, "║", "───", "┼", "║", "║");
                }
            }
            proof {
                let line = seq!['║'] + row_cells(g, n as int, row - 1, nn * nn) + seq!['\n'];
                assert(line_end =~= upper + rows_text(g, nn, (row - 1) as nat) + line);
                assert(out@ =~= upper + rows_text(g, nn, row as nat));
            }
            row = row + 1;
        }
        proof {
            lemma_pieces();
        }
        let ghost body = out@;
        push_bar(&mut out, n, "╚", "═══", "═", "╩", "╝");
        assert(body == upper + rows_text(g, nn, nn * nn));
        assert(out@ =~= diagram(g, nn));
        out
    }
}

} // verus!
