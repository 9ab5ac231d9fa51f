//! Text pictures of boards: one line per row, a piece mark on the column
//! placed in that row (at its first occurrence) and dots elsewhere.
use crate::bishops::NBishopsState;
use crate::castles::NCastlesState;
use crate::queens::NQueensState;
use vstd::prelude::*;
use vstd::string::StringExecFns;

verus! {

/// Row `row` is the first row whose placed column is `col`.
pub open spec fn first_at(filled: Seq<usize>, col: usize, row: int) -> bool {
    &&& 0 <= row < filled.len()
    &&& filled[row] == col
    &&& forall|t: int| 0 <= t < row ==> filled[t] != col
}

/// One line of the picture: `n` cells and a terminating newline.
pub open spec fn row_chars(filled: Seq<usize>, n: int, piece: char, row: int) -> Seq<char> {
    Seq::new(
        n as nat,
        |j: int|
            if first_at(filled, j as usize, row) {
                piece
            } else {
                '.'
            },
    ).push('\n')
}

/// The first `rows` lines of the picture, concatenated.
pub open spec fn board_chars(filled: Seq<usize>, n: int, piece: char, rows: int) -> Seq<char>
    decreases rows,
{
    if rows <= 0 {
        Seq::empty()
    } else {
        board_chars(filled, n, piece, rows - 1) + row_chars(filled, n, piece, rows - 1)
    }
}

/// Draw the `n` by `n` board of `filled` with the one-character mark `piece`.
fn render_board(filled: &Vec<usize>, n: usize, piece: &str) -> (r: String)
    requires
        piece@.len() == 1,
    ensures
        r@ == board_chars(filled@, n as int, piece@[0], n as int),
{
    proof {
        reveal_strlit(".");
        reveal_strlit("\n");
    }
    let ghost p = piece@[0];
    let mut s = String::new();
    let mut row: usize = 0;
    while row < n
        invariant
            row <= n,
            piece@.len() == 1,
            p == piece@[0],
            "."@ =~= seq!['.'],
            "\n"@ =~= seq!['\n'],
            s@ == board_chars(filled@, n as int, p, row as int),
        decreases n - row,
    {
        let ghost row_start = s@;
        let mut col: usize = 0;
        while col < n
            invariant
                col <= n,
                row < n,
                piece@.len() == 1,
                p == piece@[0],
                "."@ =~= seq!['.'],
                "\n"@ =~= seq!['\n'],
                s@ == row_start + Seq::new(
                    col as nat,
                    |j: int|
                        if first_at(filled@, j as usize, row as int) {
                            p
                        } else {
                            '.'
                        },
                ),
            decreases n - col,
        {
            let here = match crate::geometry::first_position(filled, col) {
                Some(i) => i == row,
                None => false,
            };
            if here {
                s.append(piece);
            } else {
                s.append(".");
            }
            proof {
                let f = |j: int|
                    if first_at(filled@, j as usize, row as int) {
                        p
                    } else {
                        '.'
                    };
                assert(Seq::new((col + 1) as nat, f) =~= Seq::new(col as nat, f).push(
                    f(col as int),
                ));
                if here {
                    assert(piece@ =~= seq![p]);
                    assert(first_at(filled@, col, row as int));
                } else {
                    assert(!first_at(filled@, col, row as int));
                }
                assert(s@ =~= row_start + Seq::new((col + 1) as nat, f));
            }
            col += 1;
        }
        s.append("\n");
        proof {
            let f = |j: int|
                if first_at(filled@, j as usize, row as int) {
                    p
                } else {
                    '.'
                };
            assert(Seq::new(n as nat, f).push('\n') =~= row_chars(filled@, n as int, p, row as int));
            assert(s@ =~= board_chars(filled@, n as int, p, row as int) + row_chars(
                filled@,
                n as int,
                p,
                row as int,
            ));
            assert(s@ =~= board_chars(filled@, n as int, p, row + 1));
        }
        row += 1;
    }
    s
}

impl NQueensState {
    /// The board as text, a `Q` on each placed cell.
    pub fn render(&self) -> (r: String)
        ensures
            r@ == board_chars(self.filled@, self.rank as int, 'Q', self.rank as int),
    {
        proof {
            reveal_strlit("Q");
        }
        render_board(&self.filled, self.rank, "Q")
    }
}

impl NBishopsState {
    /// The board as text, a `B` on each placed cell.
    pub fn render(&self) -> (r: String)
        ensures
            r@ == board_chars(self.filled@, self.size as int, 'B', self.size as int),
    {
        proof {
            reveal_strlit("B");
        }
        render_board(&self.filled, self.size, "B")
    }
}

impl NCastlesState {
    /// The board as text, a `C` on each placed cell.
    pub fn render(&self) -> (r: String)
        ensures
            r@ == board_chars(self.filled@, self.size as int, 'C', self.size as int),
    {
        proof {
            reveal_strlit("C");
        }
        render_board(&self.filled, self.size, "C")
    }
}

} // verus!
