//! N-queens states over an occupancy grid that tracks dihedral symmetry:
//! placing a queen masks every cell it attacks and every dihedral image of
//! its cell, and undoing a placement restores exactly the cells only it
//! masked (the grid is recomputed from the remaining placements, so masks
//! that overlap are never double-cleared or double-restored). The
//! symmetry-reduced enumerator returns one placement per dihedral
//! equivalence class: the lexicographically least member, as
//! `crate::dihedral::canonical` states.
//!
//! The grid itself is ndarray's two-dimensional array, held behind trusted
//! wrappers whose contracts speak of its contents as a sequence of rows.
use crate::geometry::{lemma_push_contains, queen_safe, sym_images, sym_related};
use vstd::prelude::*;

verus! {

/// The occupancy grid: ndarray's two-dimensional boolean array. Verus cannot
/// take `ArrayBase`'s trait-bounded generics, so the array sits in a field
/// of this opaque struct and is reached only through the wrappers below.
#[verifier::external_body]
pub struct Grid {
    cells: ndarray::Array2<bool>,
}

/// What the grid holds: the value of cell `(x, y)` is `grid_of(g)[x][y]`.
pub uninterp spec fn grid_of(g: Grid) -> Seq<Seq<bool>>;

/// Relies on ndarray's `Array2::from_elem`: a freshly allocated `n` by `n`
/// array in which every element is a copy of the given one.
#[verifier::external_body]
fn grid_new(n: usize) -> (g: Grid)
    ensures
        grid_of(g).len() == n,
        forall|i: int| 0 <= i < n ==> (#[trigger] grid_of(g)[i]).len() == n,
        forall|i: int, j: int| 0 <= i < n && 0 <= j < n ==> grid_of(g)[i][j],
{
    Grid { cells: ndarray::Array2::from_elem((n, n), true) }
}

/// Relies on ndarray's `Index<(usize, usize)>` impl for `ArrayBase`: returns
/// the element at `(x, y)`; it panics only out of bounds, which the
/// precondition excludes.
#[verifier::external_body]
fn grid_get(g: &Grid, x: usize, y: usize) -> (r: bool)
    requires
        x < grid_of(*g).len(),
        y < grid_of(*g)[x as int].len(),
    ensures
        r == grid_of(*g)[x as int][y as int],
{
    g.cells[(x, y)]
}

/// Relies on ndarray's `IndexMut<(usize, usize)>` impl for `ArrayBase`:
/// assigns the element at `(x, y)` and leaves every other element alone; it
/// panics only out of bounds, which the precondition excludes.
#[verifier::external_body]
fn grid_set(g: &mut Grid, x: usize, y: usize, v: bool)
    requires
        x < grid_of(*old(g)).len(),
        y < grid_of(*old(g))[x as int].len(),
    ensures
        grid_of(*final(g)) == grid_of(*old(g)).update(
            x as int,
            grid_of(*old(g))[x as int].update(y as int, v),
        ),
{
    g.cells[(x, y)] = v;
}

/// Cell `(a, b)` lies on the row, column or a diagonal of `(px, py)`.
pub open spec fn hvd_related(px: int, py: int, a: int, b: int) -> bool {
    a == px || b == py || a + b == px + py || a - b == px - py
}

/// Cell `(a, b)` is masked by a queen at `(px, py)`: attacked along a row,
/// column or diagonal, or a dihedral image of the queen's cell.
pub open spec fn cell_related(n: int, px: int, py: int, a: int, b: int) -> bool {
    hvd_related(px, py, a, b) || sym_related(n, px, py, a, b)
}

/// Cell `(a, b)` is masked by no placed queen.
pub open spec fn cell_free(filled: Seq<usize>, n: int, a: int, b: int) -> bool {
    forall|r: int| 0 <= r < filled.len() ==> !cell_related(n, r, #[trigger] filled[r] as int, a, b)
}

/// Does the queen at `(px, py)` mask cell `(a, b)`?
fn related_at(n: usize, px: usize, py: usize, a: usize, b: usize) -> (r: bool)
    requires
        px < n,
        py < n,
        a < n,
        b < n,
    ensures
        r == cell_related(n as int, px as int, py as int, a as int, b as int),
{
    proof {
        let imgs = sym_images(n as int, px as int, py as int);
        assert(imgs[0] == (px as int, py as int));
        assert(imgs[1] == (px as int, n - 1 - py as int));
        assert(imgs[2] == (n - 1 - px as int, py as int));
        assert(imgs[3] == (n - 1 - px as int, n - 1 - py as int));
        assert(imgs[4] == (py as int, px as int));
        assert(imgs[5] == (py as int, n - 1 - px as int));
        assert(imgs[6] == (n - 1 - py as int, px as int));
        assert(imgs[7] == (n - 1 - py as int, n - 1 - px as int));
    }
    if a == px || b == py {
        return true;
    }
    if (a as u128) + (b as u128) == (px as u128) + (py as u128) {
        return true;
    }
    if (a as u128) + (py as u128) == (px as u128) + (b as u128) {
        return true;
    }
    let n1 = n - 1;
    let sym = (a == px && b == n1 - py) || (a == n1 - px && b == py) || (a == n1 - px && b == n1
        - py) || (a == py && b == px) || (a == py && b == n1 - px) || (a == n1 - py && b == px) || (
    a == n1 - py && b == n1 - px);
    proof {
        let imgs = sym_images(n as int, px as int, py as int);
        if sym {
            assert(imgs.contains((a as int, b as int)));
        } else {
            if sym_related(n as int, px as int, py as int, a as int, b as int) {
                let w = choose|w: int| 0 <= w < imgs.len() && imgs[w] == (a as int, b as int);
                assert(w == 0 || w == 1 || w == 2 || w == 3 || w == 4 || w == 5 || w == 6 || w
                    == 7);
                assert(false);
            }
        }
    }
    sym
}

/// The cells produced by the ray walk after finishing `a` full passes and
/// `step` candidates of pass `a`: pass `i` contributes the column cell
/// `(i, y)`, the row cell `(x, i)`, the diagonal cell with second
/// coordinate `i` and the anti-diagonal cell with second coordinate `i`.
pub open spec fn hvd_done(x: int, y: int, p: int, q: int, a: int, step: int) -> bool {
    ||| (q == y && p < a)
    ||| (p == x && q < a)
    ||| (p - q == x - y && q < a)
    ||| (p + q == x + y && q < a)
    ||| (step >= 1 && p == a && q == y)
    ||| (step >= 2 && p == x && q == a)
    ||| (step >= 3 && p - q == x - y && q == a)
    ||| (step >= 4 && p + q == x + y && q == a)
}

/// Membership in a pushed sequence of cells.
proof fn lemma_push_contains_pair(s: Seq<(usize, usize)>, v: (usize, usize))
    ensures
        forall|a: (usize, usize)| #[trigger] s.push(v).contains(a) <==> (s.contains(a) || a == v),
{
    assert forall|a: (usize, usize)| #[trigger] s.push(v).contains(a) <==> (s.contains(a) || a
        == v) by {
        if s.push(v).contains(a) {
            let w = choose|w: int| 0 <= w < s.push(v).len() && s.push(v)[w] == a;
            if w < s.len() {
                assert(s[w] == a);
            }
        }
        if s.contains(a) {
            let w = choose|w: int| 0 <= w < s.len() && s[w] == a;
            assert(s.push(v)[w] == a);
        }
        assert(s.push(v)[s.len() as int] == v);
    }
}

/// An n-queens search state whose board tracks which cells are still free
/// of both the attack masks and the dihedral images of the placed queens.
pub struct NQueensSymmetry {
    pub rank: usize,
    pub board: Grid,
    pub filled: Vec<usize>,
}

/// A complete placement found by the reducer: attack-free, and no queen on a
/// dihedral image of another.
pub open spec fn symmetry_solution(s: NQueensSymmetry, n: usize) -> bool {
    &&& s.wf()
    &&& s.rank == n
    &&& s.filled@.len() == n
    &&& queen_safe(s.filled@)
}

impl NQueensSymmetry {
    /// The grid's invariant: its dimensions match the board and a cell is
    /// marked exactly when no placed queen masks it.
    pub open spec fn wf(self) -> bool {
        &&& self.filled@.len() <= self.rank
        &&& forall|r: int| 0 <= r < self.filled@.len() ==> (#[trigger] self.filled@[r]) < self.rank
        &&& grid_of(self.board).len() == self.rank
        &&& forall|i: int| 0 <= i < self.rank ==> (#[trigger] grid_of(self.board)[i]).len() == self.rank
        &&& forall|i: int, j: int|
            0 <= i < self.rank && 0 <= j < self.rank ==> ((#[trigger] grid_of(self.board)[i][j])
                <==> cell_free(self.filled@, self.rank as int, i, j))
    }

    /// An empty board: every cell available.
    pub fn new(rank: usize) -> (s: Self)
        ensures
            s.wf(),
            s.rank == rank,
            s.filled@.len() == 0,
    {
        let board = grid_new(rank);
        let s = NQueensSymmetry { rank, board, filled: Vec::new() };
        s
    }

    pub fn rank(&self) -> (r: usize)
        ensures
            r == self.rank,
    {
        self.rank
    }

    /// The dihedral images of `(x, y)`, in a fixed order.
    pub fn related_sym(&self, x: usize, y: usize) -> (r: Vec<(usize, usize)>)
        requires
            x < self.rank,
            y < self.rank,
        ensures
            r@.len() == 8,
            forall|t: int|
                0 <= t < 8 ==> ((#[trigger] r@[t]).0 as int, r@[t].1 as int) == sym_images(
                    self.rank as int,
                    x as int,
                    y as int,
                )[t],
    {
        let n = self.rank;
        let mut out: Vec<(usize, usize)> = Vec::new();
        out.push((x, y));
        out.push((x, n - 1 - y));
        out.push((n - 1 - x, y));
        out.push((n - 1 - x, n - 1 - y));
        out.push((y, x));
        out.push((y, n - 1 - x));
        out.push((n - 1 - y, x));
        out.push((n - 1 - y, n - 1 - x));
        out
    }

    /// Every in-range cell on the row, column or a diagonal of `(x, y)`,
    /// walked ray by ray; cells where rays meet appear more than once.
    pub fn related_hvd(&self, x: usize, y: usize) -> (r: Vec<(usize, usize)>)
        requires
            x < self.rank,
            y < self.rank,
        ensures
            forall|p: usize, q: usize|
                #[trigger] r@.contains((p, q)) <==> (p < self.rank && q < self.rank && hvd_related(
                    x as int,
                    y as int,
                    p as int,
                    q as int,
                )),
    {
        let n = self.rank;
        let mut out: Vec<(usize, usize)> = Vec::new();
        let mut a: usize = 0;
        while a < n
            invariant
                a <= n,
                x < n,
                y < n,
                n == self.rank,
                forall|p: usize, q: usize|
                    #[trigger] out@.contains((p, q)) <==> (p < n && q < n && hvd_done(
                        x as int,
                        y as int,
                        p as int,
                        q as int,
                        a as int,
                        0,
                    )),
            decreases n - a,
        {
            let mut step: usize = 0;
            while step < 4
                invariant
                    step <= 4,
                    a < n,
                    x < n,
                    y < n,
                    n == self.rank,
                    forall|p: usize, q: usize|
                        #[trigger] out@.contains((p, q)) <==> (p < n && q < n && hvd_done(
                            x as int,
                            y as int,
                            p as int,
                            q as int,
                            a as int,
                            step as int,
                        )),
                decreases 4 - step,
            {
                let ghost old_out = out@;
                let cand: Option<(usize, usize)> = if step == 0 {
                    Some((a, y))
                } else if step == 1 {
                    Some((x, a))
                } else if step == 2 {
                    let sum: u128 = x as u128 + a as u128;
                    if sum >= y as u128 && sum - (y as u128) < n as u128 {
                        proof {
                            assert(x + a - y < n);
                        }
                        Some(((sum - y as u128) as usize, a))
                    } else {
                        None
                    }
                } else {
                    let sum: u128 = x as u128 + y as u128;
                    if sum >= a as u128 && sum - (a as u128) < n as u128 {
                        proof {
                            assert(x + y - a < n);
                        }
                        Some(((sum - a as u128) as usize, a))
                    } else {
                        None
                    }
                };
                match cand {
                    Some(pt) => {
                        out.push(pt);
                        proof {
                            lemma_push_contains_pair(old_out, pt);
                        }
                    },
                    None => {},
                }
                proof {
                    assert forall|p: usize, q: usize|
                        #[trigger] out@.contains((p, q)) <==> (p < n && q < n && hvd_done(
                            x as int,
                            y as int,
                            p as int,
                            q as int,
                            a as int,
                            step as int + 1,
                        )) by {
                        assert(out@.contains((p, q)) <==> (old_out.contains((p, q)) || (
                        cand is Some && (p, q) == cand.unwrap())));
                    }
                }
                step += 1;
            }
            a += 1;
        }
        out
    }

    /// Rewrite every cell from the placements alone, re-establishing the
    /// invariant; this is how undoing restores exactly what a placement
    /// masked, without double-clearing overlapping masks.
    fn recompute(&mut self)
        requires
            old(self).filled@.len() <= old(self).rank,
            forall|r: int|
                0 <= r < old(self).filled@.len() ==> (#[trigger] old(self).filled@[r]) < old(
                    self,
                ).rank,
            grid_of(old(self).board).len() == old(self).rank,
            forall|i: int|
                0 <= i < old(self).rank ==> (#[trigger] grid_of(old(self).board)[i]).len() == old(
                    self,
                ).rank,
        ensures
            final(self).rank == old(self).rank,
            final(self).filled@ == old(self).filled@,
            final(self).wf(),
    {
        let n = self.rank;
        let mut i: usize = 0;
        while i < n
            invariant
                i <= n,
                n == self.rank,
                self.filled@ == old(self).filled@,
                self.filled@.len() <= n,
                forall|r: int| 0 <= r < self.filled@.len() ==> (#[trigger] self.filled@[r]) < n,
                grid_of(self.board).len() == n,
                forall|t: int| 0 <= t < n ==> (#[trigger] grid_of(self.board)[t]).len() == n,
                forall|a: int, b: int|
                    0 <= a < i && 0 <= b < n ==> ((#[trigger] grid_of(self.board)[a][b])
                        <==> cell_free(self.filled@, n as int, a, b)),
            decreases n - i,
        {
            let mut j: usize = 0;
            while j < n
                invariant
                    i < n,
                    j <= n,
                    n == self.rank,
                    self.filled@ == old(self).filled@,
                    self.filled@.len() <= n,
                    forall|r: int| 0 <= r < self.filled@.len() ==> (#[trigger] self.filled@[r]) < n,
                    grid_of(self.board).len() == n,
                    forall|t: int| 0 <= t < n ==> (#[trigger] grid_of(self.board)[t]).len() == n,
                    forall|a: int, b: int|
                        0 <= a < i && 0 <= b < n ==> ((#[trigger] grid_of(self.board)[a][b])
                            <==> cell_free(self.filled@, n as int, a, b)),
                    forall|b: int|
                        0 <= b < j ==> ((#[trigger] grid_of(self.board)[i as int][b])
                            <==> cell_free(self.filled@, n as int, i as int, b)),
                decreases n - j,
            {
                let mut free = true;
                let mut r: usize = 0;
                while r < self.filled.len()
                    invariant
                        i < n,
                        j < n,
                        n == self.rank,
                        r <= self.filled@.len(),
                        self.filled@.len() <= n,
                        forall|t: int| 0 <= t < self.filled@.len() ==> (#[trigger] self.filled@[t]) < n,
                        free == (forall|t: int|
                            0 <= t < r ==> !cell_related(
                                n as int,
                                t,
                                #[trigger] self.filled@[t] as int,
                                i as int,
                                j as int,
                            )),
                    decreases self.filled@.len() - r,
                {
                    if related_at(n, r, self.filled[r], i, j) {
                        free = false;
                        proof {
                            assert(cell_related(
                                n as int,
                                r as int,
                                self.filled@[r as int] as int,
                                i as int,
                                j as int,
                            ));
                        }
                    }
                    r += 1;
                }
                let ghost g0 = grid_of(self.board);
                grid_set(&mut self.board, i, j, free);
                proof {
                    assert(free == cell_free(self.filled@, n as int, i as int, j as int));
                    assert(grid_of(self.board)[i as int].len() == g0[i as int].len());
                }
                j += 1;
            }
            i += 1;
        }
    }

    /// Mark unavailable every cell that a queen at `(x, y)` masks: its rays
    /// and its dihedral images. Other cells keep their marks.
    pub fn disable_related(&mut self, x: usize, y: usize)
        requires
            x < old(self).rank,
            y < old(self).rank,
            grid_of(old(self).board).len() == old(self).rank,
            forall|i: int|
                0 <= i < old(self).rank ==> (#[trigger] grid_of(old(self).board)[i]).len() == old(
                    self,
                ).rank,
        ensures
            final(self).rank == old(self).rank,
            final(self).filled@ == old(self).filled@,
            grid_of(final(self).board).len() == old(self).rank,
            forall|i: int|
                0 <= i < old(self).rank ==> (#[trigger] grid_of(final(self).board)[i]).len()
                    == old(self).rank,
            forall|i: int, j: int|
                0 <= i < old(self).rank && 0 <= j < old(self).rank ==> ((
                #[trigger] grid_of(final(self).board)[i][j]) <==> (grid_of(old(self).board)[i][j]
                    && !cell_related(old(self).rank as int, x as int, y as int, i, j))),
    {
        let n = self.rank;
        let mut i: usize = 0;
        while i < n
            invariant
                i <= n,
                n == self.rank,
                x < n,
                y < n,
                self.filled@ == old(self).filled@,
                grid_of(self.board).len() == n,
                forall|t: int| 0 <= t < n ==> (#[trigger] grid_of(self.board)[t]).len() == n,
                forall|a: int, b: int|
                    0 <= a < i && 0 <= b < n ==> ((#[trigger] grid_of(self.board)[a][b]) <==> (
                    grid_of(old(self).board)[a][b] && !cell_related(
                        n as int,
                        x as int,
                        y as int,
                        a,
                        b,
                    ))),
                forall|a: int, b: int|
                    i <= a < n && 0 <= b < n ==> (#[trigger] grid_of(self.board)[a][b]) == grid_of(
                        old(self).board,
                    )[a][b],
            decreases n - i,
        {
            let mut j: usize = 0;
            while j < n
                invariant
                    i < n,
                    j <= n,
                    n == self.rank,
                    x < n,
                    y < n,
                    self.filled@ == old(self).filled@,
                    grid_of(self.board).len() == n,
                    forall|t: int| 0 <= t < n ==> (#[trigger] grid_of(self.board)[t]).len() == n,
                    forall|a: int, b: int|
                        0 <= a < i && 0 <= b < n ==> ((#[trigger] grid_of(self.board)[a][b]) <==> (
                        grid_of(old(self).board)[a][b] && !cell_related(
                            n as int,
                            x as int,
                            y as int,
                            a,
                            b,
                        ))),
                    forall|b: int|
                        0 <= b < j ==> ((#[trigger] grid_of(self.board)[i as int][b]) <==> (
                        grid_of(old(self).board)[i as int][b] && !cell_related(
                            n as int,
                            x as int,
                            y as int,
                            i as int,
                            b,
                        ))),
                    forall|b: int|
                        j <= b < n ==> (#[trigger] grid_of(self.board)[i as int][b]) == grid_of(
                            old(self).board,
                        )[i as int][b],
                    forall|a: int, b: int|
                        i < a < n && 0 <= b < n ==> (#[trigger] grid_of(self.board)[a][b])
                            == grid_of(old(self).board)[a][b],
                decreases n - j,
            {
                if related_at(n, x, y, i, j) {
                    let ghost g0 = grid_of(self.board);
                    grid_set(&mut self.board, i, j, false);
                    proof {
                        assert(grid_of(self.board)[i as int].len() == g0[i as int].len());
                    }
                }
                j += 1;
            }
            i += 1;
        }
    }

    /// Mark available every cell that a queen at `(x, y)` would mask,
    /// regardless of what other placements mask; the search itself undoes a
    /// placement by recomputing instead, so that overlapping masks are not
    /// wrongly re-enabled.
    pub fn enable_related(&mut self, x: usize, y: usize)
        requires
            x < old(self).rank,
            y < old(self).rank,
            grid_of(old(self).board).len() == old(self).rank,
            forall|i: int|
                0 <= i < old(self).rank ==> (#[trigger] grid_of(old(self).board)[i]).len() == old(
                    self,
                ).rank,
        ensures
            final(self).rank == old(self).rank,
            final(self).filled@ == old(self).filled@,
            grid_of(final(self).board).len() == old(self).rank,
            forall|i: int|
                0 <= i < old(self).rank ==> (#[trigger] grid_of(final(self).board)[i]).len()
                    == old(self).rank,
            forall|i: int, j: int|
                0 <= i < old(self).rank && 0 <= j < old(self).rank ==> ((
                #[trigger] grid_of(final(self).board)[i][j]) <==> (grid_of(old(self).board)[i][j]
                    || cell_related(old(self).rank as int, x as int, y as int, i, j))),
    {
        let n = self.rank;
        let mut i: usize = 0;
        while i < n
            invariant
                i <= n,
                n == self.rank,
                x < n,
                y < n,
                self.filled@ == old(self).filled@,
                grid_of(self.board).len() == n,
                forall|t: int| 0 <= t < n ==> (#[trigger] grid_of(self.board)[t]).len() == n,
                forall|a: int, b: int|
                    0 <= a < i && 0 <= b < n ==> ((#[trigger] grid_of(self.board)[a][b]) <==> (
                    grid_of(old(self).board)[a][b] || cell_related(
                        n as int,
                        x as int,
                        y as int,
                        a,
                        b,
                    ))),
                forall|a: int, b: int|
                    i <= a < n && 0 <= b < n ==> (#[trigger] grid_of(self.board)[a][b]) == grid_of(
                        old(self).board,
                    )[a][b],
            decreases n - i,
        {
            let mut j: usize = 0;
            while j < n
                invariant
                    i < n,
                    j <= n,
                    n == self.rank,
                    x < n,
                    y < n,
                    self.filled@ == old(self).filled@,
                    grid_of(self.board).len() == n,
                    forall|t: int| 0 <= t < n ==> (#[trigger] grid_of(self.board)[t]).len() == n,
                    forall|a: int, b: int|
                        0 <= a < i && 0 <= b < n ==> ((#[trigger] grid_of(self.board)[a][b]) <==> (
                        grid_of(old(self).board)[a][b] || cell_related(
                            n as int,
                            x as int,
                            y as int,
                            a,
                            b,
                        ))),
                    forall|b: int|
                        0 <= b < j ==> ((#[trigger] grid_of(self.board)[i as int][b]) <==> (
                        grid_of(old(self).board)[i as int][b] || cell_related(
                            n as int,
                            x as int,
                            y as int,
                            i as int,
                            b,
                        ))),
                    forall|b: int|
                        j <= b < n ==> (#[trigger] grid_of(self.board)[i as int][b]) == grid_of(
                            old(self).board,
                        )[i as int][b],
                    forall|a: int, b: int|
                        i < a < n && 0 <= b < n ==> (#[trigger] grid_of(self.board)[a][b])
                            == grid_of(old(self).board)[a][b],
                decreases n - j,
            {
                if related_at(n, x, y, i, j) {
                    let ghost g0 = grid_of(self.board);
                    grid_set(&mut self.board, i, j, true);
                    proof {
                        assert(grid_of(self.board)[i as int].len() == g0[i as int].len());
                    }
                }
                j += 1;
            }
            i += 1;
        }
    }

    /// Place a queen at column `y` of the next row: the row gains the queen
    /// and every cell masked by it becomes unavailable.
    pub fn go_walk(&mut self, y: usize)
        requires
            old(self).wf(),
            y < old(self).rank,
            old(self).filled@.len() < old(self).rank,
        ensures
            final(self).rank == old(self).rank,
            final(self).filled@ == old(self).filled@.push(y),
            final(self).wf(),
    {
        self.filled.push(y);
        self.recompute();
    }

    /// Undo the most recent placement, restoring exactly the cells that only
    /// it masked; a no-op on an empty board.
    pub fn go_back(&mut self)
        requires
            old(self).wf(),
        ensures
            final(self).rank == old(self).rank,
            old(self).filled@.len() == 0 ==> final(self).filled@ == old(self).filled@,
            old(self).filled@.len() > 0 ==> final(self).filled@ == old(self).filled@.drop_last(),
            final(self).wf(),
    {
        match self.filled.pop() {
            Some(_) => {
                proof {
                    let f1 = old(self).filled@;
                    assert forall|r: int|
                        0 <= r < self.filled@.len() implies (#[trigger] self.filled@[r])
                        < self.rank by {
                        assert(self.filled@[r] == f1[r]);
                    }
                }
                self.recompute();
            },
            None => {},
        }
    }

    /// The columns of the next row whose cells are still available.
    pub fn available_moves(&self) -> (r: Vec<usize>)
        requires
            self.wf(),
            self.filled@.len() < self.rank,
        ensures
            forall|k1: int, k2: int| 0 <= k1 < k2 < r@.len() ==> r@[k1] < r@[k2],
            forall|k: int| 0 <= k < r@.len() ==> (#[trigger] r@[k]) < self.rank,
            forall|c: int|
                0 <= c < self.rank ==> (#[trigger] r@.contains(c as usize) <==> cell_free(
                    self.filled@,
                    self.rank as int,
                    self.filled@.len() as int,
                    c,
                )),
    {
        let row = self.filled.len();
        let mut out: Vec<usize> = Vec::new();
        let mut c: usize = 0;
        while c < self.rank
            invariant
                c <= self.rank,
                self.wf(),
                row == self.filled@.len(),
                row < self.rank,
                forall|k1: int, k2: int| 0 <= k1 < k2 < out@.len() ==> out@[k1] < out@[k2],
                forall|k: int| 0 <= k < out@.len() ==> (#[trigger] out@[k]) < c,
                forall|k: int| 0 <= k < out@.len() ==> (#[trigger] out@[k]) < self.rank,
                forall|t: int|
                    0 <= t < c ==> (#[trigger] out@.contains(t as usize) <==> cell_free(
                        self.filled@,
                        self.rank as int,
                        row as int,
                        t,
                    )),
            decreases self.rank - c,
        {
            let ghost old_out = out@;
            if grid_get(&self.board, row, c) {
                out.push(c);
            }
            proof {
                lemma_push_contains(old_out, c);
                assert forall|t: int|
                    0 <= t < c + 1 implies (#[trigger] out@.contains(t as usize) <==> cell_free(
                    self.filled@,
                    self.rank as int,
                    row as int,
                    t,
                )) by {
                    if t == c && out@ == old_out {
                        if out@.contains(t as usize) {
                            let w = choose|w: int| 0 <= w < out@.len() && out@[w] == t as usize;
                            assert(out@[w] < c);
                        }
                    }
                }
            }
            c += 1;
        }
        out
    }

    /// Every row has its queen.
    pub fn full_filled(&self) -> (r: bool)
        ensures
            r == (self.filled@.len() == self.rank),
    {
        self.filled.len() == self.rank
    }

    /// An independent copy: same rank, same placements, and a grid rebuilt
    /// from them, so it carries the same marks.
    pub fn duplicate(&self) -> (r: Self)
        requires
            self.wf(),
        ensures
            r.wf(),
            r.rank == self.rank,
            r.filled@ == self.filled@,
    {
        let mut filled: Vec<usize> = Vec::new();
        let mut k: usize = 0;
        while k < self.filled.len()
            invariant
                k <= self.filled@.len(),
                filled@ == self.filled@.subrange(0, k as int),
            decreases self.filled@.len() - k,
        {
            filled.push(self.filled[k]);
            proof {
                assert(filled@ =~= self.filled@.subrange(0, k + 1));
            }
            k += 1;
        }
        proof {
            assert(filled@ =~= self.filled@);
        }
        let board = grid_new(self.rank);
        let mut copy = NQueensSymmetry { rank: self.rank, board, filled };
        copy.recompute();
        copy
    }
}

/// Law: under the invariant the grid is determined by the placements, so two
/// states with the same rank and placements mark exactly the same cells;
/// with `go_walk`'s and `go_back`'s contracts this says that placing and
/// immediately unplacing restores the occupancy observationally.
pub proof fn lemma_grid_determined(s1: NQueensSymmetry, s2: NQueensSymmetry)
    requires
        s1.wf(),
        s2.wf(),
        s1.rank == s2.rank,
        s1.filled@ == s2.filled@,
    ensures
        grid_of(s1.board) == grid_of(s2.board),
{
    let g1 = grid_of(s1.board);
    let g2 = grid_of(s2.board);
    assert forall|i: int| 0 <= i < g1.len() implies g1[i] == g2[i] by {
        assert(g1[i].len() == g2[i].len());
        assert forall|j: int| 0 <= j < g1[i].len() implies g1[i][j] == g2[i][j] by {
            assert(g1[i][j] <==> cell_free(s1.filled@, s1.rank as int, i, j));
            assert(g2[i][j] <==> cell_free(s2.filled@, s2.rank as int, i, j));
        }
        assert(g1[i] =~= g2[i]);
    }
    assert(g1 =~= g2);
}

/// The symmetry-reduced enumerator over grid states: exactly one member of
/// each dihedral equivalence class of complete, attack-free placements —
/// the lexicographically least, as `canonical` states — each carried by a
/// state whose occupancy grid is rebuilt from its placements.
pub fn n_queens_backtrack(size: usize) -> (r: Vec<NQueensSymmetry>)
    ensures
        forall|k: int|
            0 <= k < r@.len() ==> symmetry_solution(#[trigger] r@[k], size)
                && crate::geometry::is_col_permutation(r@[k].filled@, size as int)
                && crate::dihedral::canonical(size as int, r@[k].filled@),
        forall|s: Seq<usize>|
            #[trigger] crate::queens::solution_seq(s, size) && crate::dihedral::canonical(
                size as int,
                s,
            ) ==> exists|k: int| 0 <= k < r@.len() && r@[k].filled@ == s,
        forall|k1: int, k2: int| 0 <= k1 < k2 < r@.len() ==> r@[k1].filled@ != r@[k2].filled@,
{
    let sols = crate::queens::n_queens_symmetry(size);
    let mut out: Vec<NQueensSymmetry> = Vec::new();
    let mut k: usize = 0;
    while k < sols.len()
        invariant
            k <= sols@.len(),
            out@.len() == k,
            forall|j: int|
                0 <= j < sols@.len() ==> crate::queens::queen_solution(#[trigger] sols@[j], size)
                    && crate::dihedral::canonical(size as int, sols@[j].filled@),
            forall|s: Seq<usize>|
                #[trigger] crate::queens::solution_seq(s, size) && crate::dihedral::canonical(
                    size as int,
                    s,
                ) ==> exists|j: int| 0 <= j < sols@.len() && sols@[j].filled@ == s,
            forall|j1: int, j2: int|
                0 <= j1 < j2 < sols@.len() ==> sols@[j1].filled@ != sols@[j2].filled@,
            forall|w: int|
                0 <= w < k ==> symmetry_solution(#[trigger] out@[w], size) && out@[w].filled@
                    == sols@[w].filled@,
        decreases sols@.len() - k,
    {
        let src = &sols[k];
        proof {
            assert(crate::queens::queen_solution(sols@[k as int], size));
        }
        let mut g = NQueensSymmetry::new(size);
        let mut j: usize = 0;
        while j < src.filled.len()
            invariant
                g.wf(),
                g.rank == size,
                src.rank == size,
                src.filled@.len() == size,
                forall|t: int| 0 <= t < size ==> (#[trigger] src.filled@[t]) < size,
                queen_safe(src.filled@),
                j <= size,
                g.filled@ == src.filled@.subrange(0, j as int),
            decreases size - j,
        {
            let c = src.filled[j];
            g.go_walk(c);
            proof {
                assert(g.filled@ =~= src.filled@.subrange(0, j + 1));
            }
            j += 1;
        }
        proof {
            assert(g.filled@ =~= src.filled@);
            assert(symmetry_solution(g, size));
        }
        out.push(g);
        k += 1;
    }
    proof {
        assert forall|s: Seq<usize>|
            #[trigger] crate::queens::solution_seq(s, size) && crate::dihedral::canonical(
                size as int,
                s,
            ) implies exists|k0: int| 0 <= k0 < out@.len() && out@[k0].filled@ == s by {
            let j = choose|j: int| 0 <= j < sols@.len() && sols@[j].filled@ == s;
            assert(out@[j].filled@ == s);
        }
        assert forall|k0: int|
            0 <= k0 < out@.len() implies crate::geometry::is_col_permutation(
            out@[k0].filled@,
            size as int,
        ) && crate::dihedral::canonical(size as int, out@[k0].filled@) by {
            assert(crate::queens::queen_solution(sols@[k0], size));
            assert(out@[k0].filled@ == sols@[k0].filled@);
        }
    }
    out
}

} // verus!
