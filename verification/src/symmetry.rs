//! Symmetry-aware candidate selection for `NQueensState`: the next row's
//! candidates are additionally pruned of every column that is a dihedral
//! image of an already placed queen projected onto that row.
use crate::geometry::{
    contains_col, lemma_push_contains, queen_ok, sym_images, sym_related,
};
use crate::queens::NQueensState;
use vstd::prelude::*;

verus! {

/// Column `a` of row `column` is masked because some placed queen has a
/// dihedral image `(a, column)`.
pub open spec fn queen_banned(filled: Seq<usize>, n: int, column: int, a: int) -> bool {
    exists|r: int|
        0 <= r < filled.len() && sym_related(n, r, #[trigger] filled[r] as int, a, column)
}

impl NQueensState {
    /// The eight dihedral images of the cell `(x, y)`, in a fixed order.
    pub fn symmetry_point(&self, x: usize, y: usize) -> (r: Vec<(usize, usize)>)
        requires
            x < self.rank,
            y < self.rank,
        ensures
            r@.len() == 8,
            forall|t: int|
                0 <= t < 8 ==> ((#[trigger] r@[t]).0 as int, r@[t].1 as int) == sym_images(
                    self.rank as int,
                    x as int,
                    y as int,
                )[t],
    {
        let n = self.rank;
        let mut out: Vec<(usize, usize)> = Vec::new();
        out.push((x, y));
        out.push((x, n - 1 - y));
        out.push((n - 1 - x, y));
        out.push((n - 1 - x, n - 1 - y));
        out.push((y, x));
        out.push((y, n - 1 - x));
        out.push((n - 1 - y, x));
        out.push((n - 1 - y, n - 1 - x));
        out
    }

    /// Is column `a` of row `column` a dihedral image of a placed queen?
    fn is_banned(&self, column: usize, a: usize) -> (r: bool)
        requires
            self.wf(),
        ensures
            r == queen_banned(self.filled@, self.rank as int, column as int, a as int),
    {
        let ghost n = self.rank as int;
        let ghost f = self.filled@;
        let mut row: usize = 0;
        while row < self.filled.len()
            invariant
                self.wf(),
                row <= f.len(),
                f == self.filled@,
                n == self.rank as int,
                forall|w: int|
                    0 <= w < row ==> !sym_related(
                        n,
                        w,
                        #[trigger] f[w] as int,
                        a as int,
                        column as int,
                    ),
            decreases f.len() - row,
        {
            let pts = self.symmetry_point(row, self.filled[row]);
            let mut t: usize = 0;
            while t < 8
                invariant
                    t <= 8,
                    row < f.len(),
                    f == self.filled@,
                    n == self.rank as int,
                    self.wf(),
                    pts@.len() == 8,
                    forall|u: int|
                        0 <= u < 8 ==> ((#[trigger] pts@[u]).0 as int, pts@[u].1 as int)
                            == sym_images(n, row as int, f[row as int] as int)[u],
                    forall|u: int|
                        0 <= u < t ==> sym_images(n, row as int, f[row as int] as int)[u] != (
                        a as int,
                        column as int,
                        ),
                decreases 8 - t,
            {
                if pts[t].0 == a && pts[t].1 == column {
                    proof {
                        assert(sym_images(n, row as int, f[row as int] as int)[t as int] == (
                        a as int,
                        column as int,
                        ));
                        assert(sym_related(n, row as int, f[row as int] as int, a as int, column as int));
                    }
                    return true;
                }
                t += 1;
            }
            proof {
                if sym_related(n, row as int, f[row as int] as int, a as int, column as int) {
                    let u = choose|u: int|
                        0 <= u < 8 && sym_images(n, row as int, f[row as int] as int)[u] == (
                        a as int,
                        column as int,
                        );
                    assert(false);
                }
            }
            row += 1;
        }
        false
    }

    /// Every column that some placed queen's dihedral image projects onto row
    /// `column`, in increasing order and without duplicates.
    pub fn symmetry_banned(&self, column: usize) -> (r: Vec<usize>)
        requires
            self.wf(),
        ensures
            forall|k1: int, k2: int| 0 <= k1 < k2 < r@.len() ==> r@[k1] < r@[k2],
            forall|a: usize|
                #[trigger] r@.contains(a) <==> queen_banned(
                    self.filled@,
                    self.rank as int,
                    column as int,
                    a as int,
                ),
    {
        let ghost n = self.rank as int;
        let ghost f = self.filled@;
        let mut out: Vec<usize> = Vec::new();
        let mut a: usize = 0;
        while a < self.rank
            invariant
                self.wf(),
                a <= self.rank,
                f == self.filled@,
                n == self.rank as int,
                forall|k1: int, k2: int| 0 <= k1 < k2 < out@.len() ==> out@[k1] < out@[k2],
                forall|k: int| 0 <= k < out@.len() ==> (#[trigger] out@[k]) < a,
                forall|t: int|
                    0 <= t < a ==> (#[trigger] out@.contains(t as usize) <==> queen_banned(
                        f,
                        n,
                        column as int,
                        t,
                    )),
            decreases self.rank - a,
        {
            let ghost old_out = out@;
            if self.is_banned(column, a) {
                out.push(a);
            }
            proof {
                lemma_push_contains(old_out, a);
                assert forall|t: int|
                    0 <= t < a + 1 implies (#[trigger] out@.contains(t as usize) <==> queen_banned(
                    f,
                    n,
                    column as int,
                    t,
                )) by {
                    if t == a && out@ == old_out {
                        if out@.contains(t as usize) {
                            let w = choose|w: int| 0 <= w < out@.len() && out@[w] == t as usize;
                            assert(out@[w] < a);
                        }
                    }
                }
            }
            a += 1;
        }
        proof {
            assert forall|t: usize|
                #[trigger] out@.contains(t) <==> queen_banned(f, n, column as int, t as int) by {
                if t < self.rank {
                    assert(out@.contains(((t as int) as usize)) <==> queen_banned(
                        f,
                        n,
                        column as int,
                        t as int,
                    ));
                } else {
                    if out@.contains(t) {
                        let w = choose|w: int| 0 <= w < out@.len() && out@[w] == t;
                        assert(out@[w] < self.rank);
                    }
                    if queen_banned(f, n, column as int, t as int) {
                        let r0 = choose|r0: int|
                            0 <= r0 < f.len() && sym_related(
                                n,
                                r0,
                                #[trigger] f[r0] as int,
                                t as int,
                                column as int,
                            );
                        let u = choose|u: int|
                            0 <= u < 8 && sym_images(n, r0, f[r0] as int)[u] == (
                            t as int,
                            column as int,
                            );
                        assert(u == 0 || u == 1 || u == 2 || u == 3 || u == 4 || u == 5 || u == 6
                            || u == 7);
                        assert(0 <= r0 < n && 0 <= f[r0] < n);
                        assert((t as int) < n);
                        assert(false);
                    }
                }
            }
        }
        out
    }

    /// The still-available columns for the next row that pass both the attack
    /// check and the dihedral-symmetry mask, in increasing order.
    pub fn symmetry_available_moves(&self) -> (r: Vec<usize>)
        requires
            self.wf(),
        ensures
            forall|k1: int, k2: int| 0 <= k1 < k2 < r@.len() ==> r@[k1] < r@[k2],
            forall|k: int|
                0 <= k < r@.len() ==> (#[trigger] r@[k]) < self.rank && self.unused@[r@[k] as int]
                    && queen_ok(self.filled@, self.filled@.len() as int, r@[k] as int),
            forall|c: int|
                0 <= c < self.rank ==> (#[trigger] r@.contains(c as usize) <==> (self.unused@[c]
                    && !queen_banned(
                    self.filled@,
                    self.rank as int,
                    self.filled@.len() as int,
                    c,
                ) && queen_ok(self.filled@, self.filled@.len() as int, c))),
    {
        let banned = self.symmetry_banned(self.filled.len());
        let mut out: Vec<usize> = Vec::new();
        let mut c: usize = 0;
        while c < self.rank
            invariant
                c <= self.rank,
                self.wf(),
                forall|a: usize|
                    #[trigger] banned@.contains(a) <==> queen_banned(
                        self.filled@,
                        self.rank as int,
                        self.filled@.len() as int,
                        a as int,
                    ),
                forall|k1: int, k2: int| 0 <= k1 < k2 < out@.len() ==> out@[k1] < out@[k2],
                forall|k: int| 0 <= k < out@.len() ==> (#[trigger] out@[k]) < c,
                forall|k: int|
                    0 <= k < out@.len() ==> (#[trigger] out@[k]) < self.rank
                        && self.unused@[out@[k] as int] && queen_ok(
                        self.filled@,
                        self.filled@.len() as int,
                        out@[k] as int,
                    ),
                forall|t: int|
                    0 <= t < c ==> (#[trigger] out@.contains(t as usize) <==> (self.unused@[t]
                        && !queen_banned(
                        self.filled@,
                        self.rank as int,
                        self.filled@.len() as int,
                        t,
                    ) && queen_ok(self.filled@, self.filled@.len() as int, t))),
            decreases self.rank - c,
        {
            let ghost old_out = out@;
            if self.unused[c] && !contains_col(&banned, c) && self.valid_at(c) {
                out.push(c);
            }
            proof {
                lemma_push_contains(old_out, c);
                assert forall|t: int|
                    0 <= t < c + 1 implies (#[trigger] out@.contains(t as usize) <==> (
                self.unused@[t] && !queen_banned(
                    self.filled@,
                    self.rank as int,
                    self.filled@.len() as int,
                    t,
                ) && queen_ok(self.filled@, self.filled@.len() as int, t))) by {
                    if t < c {
                        if out@ == old_out.push(c) {
                            assert(out@.contains(t as usize) <==> old_out.contains(t as usize));
                        }
                    } else {
                        if out@ == old_out {
                            if out@.contains(t as usize) {
                                let w = choose|w: int|
                                    0 <= w < out@.len() && out@[w] == t as usize;
                                assert(out@[w] < c);
                            }
                        } else {
                            assert(out@.contains(c));
                        }
                    }
                }
            }
            c += 1;
        }
        out
    }
}

} // verus!
