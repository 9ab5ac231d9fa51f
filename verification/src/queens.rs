//! The n-queens board state, the backtracking enumerator, its
//! symmetry-pruned variant, and the closed-form modular constructor.
use crate::dihedral::{
    canonical, is_canonical, lemma_canonical_unique, lemma_orbit_has_canonical, sym_apply, sym_inv,
};
use crate::geometry::{
    contains_col, count_true, fill_bool, is_col_permutation, lemma_count_true_bounds,
    lemma_count_true_update, lemma_count_true_zero, lemma_count_all_true, lemma_queen_safe_push,
    queen_conflict, queen_ok, queen_safe,
};
use vstd::pervasive::VecAdditionalExecFns;
use vstd::prelude::*;

verus! {

/// A partial placement of queens: `filled[r]` is the column of the queen in
/// row `r`, and `unused[c]` says whether column `c` is still free.
pub struct NQueensState {
    pub rank: usize,
    pub filled: Vec<usize>,
    pub unused: Vec<bool>,
}

/// A complete, valid placement of `n` queens: every row holds a queen, no two
/// attack each other, and every column is used exactly once.
pub open spec fn queen_solution(s: NQueensState, n: usize) -> bool {
    &&& s.wf()
    &&& s.rank == n
    &&& s.filled@.len() == n
    &&& queen_safe(s.filled@)
    &&& forall|c: int| 0 <= c < n ==> #[trigger] s.filled@.contains(c as usize)
}

impl NQueensState {
    /// The state's internal invariant: the mask mirrors the placed columns,
    /// no column is placed twice, and the counts agree with the board size.
    pub open spec fn wf(self) -> bool {
        &&& self.unused@.len() == self.rank
        &&& self.filled@.len() <= self.rank
        &&& forall|r: int| 0 <= r < self.filled@.len() ==> (#[trigger] self.filled@[r]) < self.rank
        &&& forall|c: int|
            0 <= c < self.rank ==> ((#[trigger] self.unused@[c]) <==> !self.filled@.contains(
                c as usize,
            ))
        &&& forall|r1: int, r2: int|
            0 <= r1 < r2 < self.filled@.len() ==> self.filled@[r1] != self.filled@[r2]
        &&& self.filled@.len() + count_true(self.unused@) == self.rank
    }

    /// An empty board: no rows filled, every column available.
    pub fn new(size: usize) -> (s: Self)
        ensures
            s.wf(),
            s.rank == size,
            s.filled@.len() == 0,
            forall|c: int| 0 <= c < size ==> s.unused@[c],
    {
        let unused = fill_bool(size, true);
        let s = NQueensState { rank: size, filled: Vec::new(), unused };
        proof {
            assert forall|c: int| 0 <= c < size implies (s.unused@[c] <==> !s.filled@.contains(
                c as usize,
            )) by {
                assert(!s.filled@.contains(c as usize));
            }
            lemma_count_all_true(s.unused@);
        }
        s
    }

    /// True when no column is available any more; with the invariant this is
    /// the same as every row having a queen.
    pub fn full_filled(&self) -> (r: bool)
        requires
            self.wf(),
        ensures
            r == (self.filled@.len() == self.rank),
    {
        let mut k: usize = 0;
        while k < self.unused.len()
            invariant
                self.wf(),
                k <= self.unused@.len(),
                forall|t: int| 0 <= t < k ==> !self.unused@[t],
            decreases self.unused@.len() - k,
        {
            if self.unused[k] {
                proof {
                    assert(self.unused@[k as int]);
                    assert(!(forall|i: int| 0 <= i < self.unused@.len() ==> !self.unused@[i]));
                    lemma_count_true_zero(self.unused@);
                    lemma_count_true_bounds(self.unused@);
                    assert(count_true(self.unused@) != 0);
                    assert(self.filled@.len() < self.rank);
                }
                return false;
            }
            k += 1;
        }
        proof {
            lemma_count_true_zero(self.unused@);
        }
        true
    }

    /// Redundant check that every column in `[0, rank)` appears in `filled`.
    pub fn is_solution(&self) -> (r: bool)
        ensures
            r == (forall|c: int| 0 <= c < self.rank ==> #[trigger] self.filled@.contains(c as usize)),
    {
        let mut c: usize = 0;
        while c < self.rank
            invariant
                c <= self.rank,
                forall|t: int| 0 <= t < c ==> #[trigger] self.filled@.contains(t as usize),
            decreases self.rank - c,
        {
            if !contains_col(&self.filled, c) {
                proof {
                    assert(!self.filled@.contains(((c as int) as usize)));
                }
                return false;
            }
            c += 1;
        }
        true
    }

    /// Is it safe to place a queen at `column` in the next row?
    pub fn valid_at(&self, column: usize) -> (r: bool)
        ensures
            r == queen_ok(self.filled@, self.filled@.len() as int, column as int),
    {
        let row = self.filled.len();
        let mut j: usize = 0;
        while j < self.filled.len()
            invariant
                j <= self.filled@.len(),
                row == self.filled@.len(),
                forall|t: int|
                    0 <= t < j ==> !queen_conflict(t, self.filled@[t] as int, row as int, column as int),
            decreases self.filled@.len() - j,
        {
            let sc = self.filled[j];
            if column == sc || (column as u128) + (row as u128) == (sc as u128) + (j as u128) || (
            column as u128) + (j as u128) == (sc as u128) + (row as u128) {
                return false;
            }
            j += 1;
        }
        true
    }

    /// The available columns that `valid_at` accepts, in increasing order.
    pub fn available_moves(&self) -> (r: Vec<usize>)
        requires
            self.wf(),
        ensures
            forall|k1: int, k2: int| 0 <= k1 < k2 < r@.len() ==> r@[k1] < r@[k2],
            forall|k: int|
                0 <= k < r@.len() ==> (#[trigger] r@[k]) < self.rank && self.unused@[r@[k] as int]
                    && queen_ok(self.filled@, self.filled@.len() as int, r@[k] as int),
            forall|c: int|
                0 <= c < self.rank ==> (#[trigger] r@.contains(c as usize) <==> (self.unused@[c]
                    && queen_ok(self.filled@, self.filled@.len() as int, c))),
    {
        let mut out: Vec<usize> = Vec::new();
        let mut c: usize = 0;
        while c < self.rank
            invariant
                c <= self.rank,
                self.wf(),
                forall|k1: int, k2: int| 0 <= k1 < k2 < out@.len() ==> out@[k1] < out@[k2],
                forall|k: int| 0 <= k < out@.len() ==> (#[trigger] out@[k]) < c,
                forall|k: int|
                    0 <= k < out@.len() ==> (#[trigger] out@[k]) < self.rank
                        && self.unused@[out@[k] as int] && queen_ok(
                        self.filled@,
                        self.filled@.len() as int,
                        out@[k] as int,
                    ),
                forall|t: int|
                    0 <= t < c ==> (#[trigger] out@.contains(t as usize) <==> (self.unused@[t]
                        && queen_ok(self.filled@, self.filled@.len() as int, t))),
            decreases self.rank - c,
        {
            if self.unused[c] && self.valid_at(c) {
                let ghost old_out = out@;
                out.push(c);
                proof {
                    assert forall|t: int|
                        0 <= t < c + 1 implies (#[trigger] out@.contains(t as usize) <==> (
                    self.unused@[t] && queen_ok(self.filled@, self.filled@.len() as int, t))) by {
                        if t < c {
                            assert(out@.contains(t as usize) <==> old_out.contains(t as usize)) by {
                                if old_out.contains(t as usize) {
                                    let w = choose|w: int|
                                        0 <= w < old_out.len() && old_out[w] == t as usize;
                                    assert(out@[w] == t as usize);
                                }
                                if out@.contains(t as usize) {
                                    let w = choose|w: int|
                                        0 <= w < out@.len() && out@[w] == t as usize;
                                    assert(w < old_out.len());
                                    assert(old_out[w] == t as usize);
                                }
                            }
                        } else {
                            assert(out@[out@.len() - 1] == t as usize);
                        }
                    }
                }
            } else {
                let ghost old_out = out@;
                proof {
                    assert forall|t: int|
                        0 <= t < c + 1 implies (#[trigger] out@.contains(t as usize) <==> (
                    self.unused@[t] && queen_ok(self.filled@, self.filled@.len() as int, t))) by {
                        if t == c {
                            if out@.contains(t as usize) {
                                let w = choose|w: int|
                                    0 <= w < out@.len() && out@[w] == t as usize;
                                assert(out@[w] < c);
                            }
                        }
                    }
                }
            }
            c += 1;
        }
        out
    }

    /// Place a queen at `column` in the next row. The column must still be
    /// available; callers check safety separately with `valid_at`.
    pub fn go_walk(&mut self, column: usize)
        requires
            old(self).wf(),
            column < old(self).rank,
            old(self).unused@[column as int],
        ensures
            final(self).rank == old(self).rank,
            final(self).filled@ == old(self).filled@.push(column),
            final(self).unused@ == old(self).unused@.update(column as int, false),
            final(self).wf(),
    {
        proof {
            assert(self.unused@[column as int]);
            assert(!(forall|i: int| 0 <= i < self.unused@.len() ==> !self.unused@[i]));
            lemma_count_true_zero(self.unused@);
            lemma_count_true_bounds(self.unused@);
            assert(self.filled@.len() < self.rank);
            lemma_count_true_update(self.unused@, column as int, false);
        }
        self.filled.push(column);
        self.unused.set(column, false);
        proof {
            let f2 = self.filled@;
            let f1 = old(self).filled@;
            assert forall|c: int|
                0 <= c < self.rank implies ((#[trigger] self.unused@[c]) <==> !f2.contains(
                c as usize,
            )) by {
                if c == column {
                    assert(f2[f2.len() - 1] == column);
                    assert(f2.contains(column));
                } else {
                    assert(f2.contains(c as usize) <==> f1.contains(c as usize)) by {
                        if f1.contains(c as usize) {
                            let w = choose|w: int| 0 <= w < f1.len() && f1[w] == c as usize;
                            assert(f2[w] == c as usize);
                        }
                        if f2.contains(c as usize) {
                            let w = choose|w: int| 0 <= w < f2.len() && f2[w] == c as usize;
                            assert(w < f1.len());
                            assert(f1[w] == c as usize);
                        }
                    }
                }
            }
            assert(!f1.contains(column));
            assert forall|r1: int, r2: int| 0 <= r1 < r2 < f2.len() implies f2[r1] != f2[r2] by {
                if r2 == f2.len() - 1 {
                    assert(f2[r1] == f1[r1]);
                    if f2[r1] == column {
                        assert(f1.contains(column));
                    }
                }
            }
        }
    }

    /// Remove the most recently placed queen and free its column again; a
    /// no-op on an empty board.
    pub fn go_back(&mut self)
        requires
            old(self).wf(),
        ensures
            final(self).rank == old(self).rank,
            old(self).filled@.len() == 0 ==> final(self).filled@ == old(self).filled@
                && final(self).unused@ == old(self).unused@,
            old(self).filled@.len() > 0 ==> final(self).filled@ == old(self).filled@.drop_last()
                && final(self).unused@ == old(self).unused@.update(
                old(self).filled@.last() as int,
                true,
            ),
            final(self).wf(),
    {
        match self.filled.pop() {
            Some(s) => {
                proof {
                    let f1 = old(self).filled@;
                    assert(f1[f1.len() - 1] == s);
                    assert(f1.contains(s));
                    assert(s < self.rank);
                    assert(!old(self).unused@[s as int]);
                    lemma_count_true_update(self.unused@, s as int, true);
                }
                self.unused.set(s, true);
                proof {
                    let f1 = old(self).filled@;
                    let f2 = self.filled@;
                    let s0 = f1.last();
                    assert forall|c: int|
                        0 <= c < self.rank implies ((#[trigger] self.unused@[c]) <==> !f2.contains(
                        c as usize,
                    )) by {
                        if c == s0 as int {
                            if f2.contains(s0) {
                                let w = choose|w: int| 0 <= w < f2.len() && f2[w] == s0;
                                assert(f1[w] == s0);
                                assert(f1[f1.len() - 1] == s0);
                            }
                        } else {
                            assert(f2.contains(c as usize) <==> f1.contains(c as usize)) by {
                                if f1.contains(c as usize) {
                                    let w = choose|w: int| 0 <= w < f1.len() && f1[w] == c as usize;
                                    assert(w != f1.len() - 1);
                                    assert(f2[w] == c as usize);
                                }
                                if f2.contains(c as usize) {
                                    let w = choose|w: int| 0 <= w < f2.len() && f2[w] == c as usize;
                                    assert(f1[w] == c as usize);
                                }
                            }
                        }
                    }
                    assert forall|r: int| 0 <= r < f2.len() implies (#[trigger] f2[r]) < self.rank by {
                        assert(f2[r] == f1[r]);
                    }
                    assert forall|r1: int, r2: int| 0 <= r1 < r2 < f2.len() implies f2[r1] != f2[r2] by {
                        assert(f2[r1] == f1[r1]);
                        assert(f2[r2] == f1[r2]);
                    }
                }
            },
            None => {},
        }
    }

    /// An independent copy of the state.
    pub fn duplicate(&self) -> (r: Self)
        ensures
            r.rank == self.rank,
            r.filled@ == self.filled@,
            r.unused@ == self.unused@,
    {
        let mut filled: Vec<usize> = Vec::new();
        let mut k: usize = 0;
        while k < self.filled.len()
            invariant
                k <= self.filled@.len(),
                filled@ == self.filled@.subrange(0, k as int),
            decreases self.filled@.len() - k,
        {
            filled.push(self.filled[k]);
            proof {
                assert(filled@ =~= self.filled@.subrange(0, k + 1));
            }
            k += 1;
        }
        let mut unused: Vec<bool> = Vec::new();
        let mut t: usize = 0;
        while t < self.unused.len()
            invariant
                t <= self.unused@.len(),
                unused@ == self.unused@.subrange(0, t as int),
            decreases self.unused@.len() - t,
        {
            unused.push(self.unused[t]);
            proof {
                assert(unused@ =~= self.unused@.subrange(0, t + 1));
            }
            t += 1;
        }
        proof {
            assert(filled@ =~= self.filled@);
            assert(unused@ =~= self.unused@);
        }
        NQueensState { rank: self.rank, filled, unused }
    }
}

/// A state with no free column left has every row filled and every column
/// placed: together with safety this is a complete solution.
proof fn lemma_full_is_solution(s: NQueensState)
    requires
        s.wf(),
        s.filled@.len() == s.rank,
    ensures
        forall|c: int| 0 <= c < s.rank ==> #[trigger] s.filled@.contains(c as usize),
{
    lemma_count_true_zero(s.unused@);
    lemma_count_true_bounds(s.unused@);
    assert(count_true(s.unused@) == 0);
    assert forall|c: int| 0 <= c < s.rank implies #[trigger] s.filled@.contains(c as usize) by {
        assert(!s.unused@[c]);
    }
}

/// A complete, attack-free assignment for an `n` board, as a bare sequence.
pub open spec fn solution_seq(s: Seq<usize>, n: usize) -> bool {
    &&& s.len() == n
    &&& forall|r: int| 0 <= r < s.len() ==> (#[trigger] s[r]) < n
    &&& queen_safe(s)
}

/// Depth-first walk below `state`: appends to `out` a copy of exactly the
/// complete placements that extend it, each once, and puts the state back
/// as found.
#[verifier::rlimit(50)]
#[verifier::loop_isolation(false)]
fn search(state: &mut NQueensState, out: &mut Vec<NQueensState>)
    requires
        old(state).wf(),
        queen_safe(old(state).filled@),
    ensures
        final(state).rank == old(state).rank,
        final(state).filled@ == old(state).filled@,
        final(state).unused@ == old(state).unused@,
        final(out)@.len() >= old(out)@.len(),
        forall|k: int| 0 <= k < old(out)@.len() ==> final(out)@[k] == old(out)@[k],
        forall|k: int|
            old(out)@.len() <= k < final(out)@.len() ==> queen_solution(
                #[trigger] final(out)@[k],
                old(state).rank,
            ) && final(out)@[k].filled@.subrange(0, old(state).filled@.len() as int) == old(
                state,
            ).filled@,
        forall|s: Seq<usize>|
            #[trigger] solution_seq(s, old(state).rank) && s.subrange(
                0,
                old(state).filled@.len() as int,
            ) == old(state).filled@ ==> exists|k: int|
                old(out)@.len() <= k < final(out)@.len() && final(out)@[k].filled@ == s,
        forall|k1: int, k2: int|
            old(out)@.len() <= k1 < k2 < final(out)@.len() ==> final(out)@[k1].filled@
                != final(out)@[k2].filled@,
    decreases old(state).rank - old(state).filled@.len(),
{
    let ghost l = state.filled@.len() as int;
    if state.full_filled() {
        proof {
            lemma_full_is_solution(*state);
        }
        let copy = state.duplicate();
        out.push(copy);
        proof {
            assert(out@[out@.len() - 1].filled@.subrange(0, l) =~= old(state).filled@);
            assert forall|s: Seq<usize>|
                #[trigger] solution_seq(s, old(state).rank) && s.subrange(0, l) == old(
                state,
            ).filled@ implies exists|k: int|
                old(out)@.len() <= k < out@.len() && out@[k].filled@ == s by {
                assert(s =~= s.subrange(0, l));
                assert(out@[out@.len() - 1].filled@ == s);
            }
        }
        return;
    }
    let moves = state.available_moves();
    let ghost orig = *state;
    let ghost f = orig.filled@;
    let ghost out0 = out@;
    let mut k: usize = 0;
    while k < moves.len()
        invariant
            k <= moves@.len(),
            state.wf(),
            state.rank == orig.rank,
            state.filled@ == orig.filled@,
            state.unused@ == orig.unused@,
            orig.wf(),
            f == orig.filled@,
            l == f.len() as int,
            queen_safe(f),
            orig.filled@.len() < orig.rank,
            forall|k1: int, k2: int| 0 <= k1 < k2 < moves@.len() ==> moves@[k1] < moves@[k2],
            forall|t: int|
                0 <= t < moves@.len() ==> (#[trigger] moves@[t]) < orig.rank
                    && orig.unused@[moves@[t] as int] && queen_ok(f, l, moves@[t] as int),
            forall|c: int|
                0 <= c < orig.rank ==> (#[trigger] moves@.contains(c as usize) <==> (
                orig.unused@[c] && queen_ok(f, l, c))),
            out@.len() >= out0.len(),
            forall|t: int| 0 <= t < out0.len() ==> out@[t] == out0[t],
            forall|t: int|
                out0.len() <= t < out@.len() ==> queen_solution(#[trigger] out@[t], orig.rank)
                    && out@[t].filled@.subrange(0, l) == f && exists|w: int|
                    0 <= w < k && out@[t].filled@[l] == moves@[w],
            forall|s: Seq<usize>|
                #[trigger] solution_seq(s, orig.rank) && s.subrange(0, l) == f && (exists|w: int|
                    0 <= w < k && s[l] == moves@[w]) ==> exists|t: int|
                    out0.len() <= t < out@.len() && out@[t].filled@ == s,
            forall|t1: int, t2: int|
                out0.len() <= t1 < t2 < out@.len() ==> out@[t1].filled@ != out@[t2].filled@,
        decreases moves@.len() - k,
    {
        let c = moves[k];
        state.go_walk(c);
        proof {
            lemma_queen_safe_push(f, c);
        }
        let ghost mid = out@;
        search(state, out);
        state.go_back();
        proof {
            assert(state.filled@ =~= orig.filled@);
            assert(state.unused@ =~= orig.unused@);
            let f1 = f.push(c);
            assert(f1.subrange(0, l) =~= f);
            // entries added by the recursive call extend `f` and place `c`
            // in the next row, so they differ from every earlier entry
            assert forall|t: int|
                out0.len() <= t < out@.len() implies queen_solution(#[trigger] out@[t], orig.rank)
                    && out@[t].filled@.subrange(0, l) == f && exists|w: int|
                    0 <= w < k + 1 && out@[t].filled@[l] == moves@[w] by {
                if t < mid.len() {
                    assert(out@[t] == mid[t]);
                    let w = choose|w: int| 0 <= w < k && mid[t].filled@[l] == moves@[w];
                    assert(0 <= w < k + 1 && out@[t].filled@[l] == moves@[w]);
                } else {
                    let e = out@[t].filled@;
                    assert(e.subrange(0, l + 1) == f1);
                    assert(e.subrange(0, l) =~= e.subrange(0, l + 1).subrange(0, l));
                    assert(e.subrange(0, l) =~= f);
                    assert(e[l] == f1[l]);
                    assert(e[l] == moves@[k as int]);
                }
            }
            // every solution whose next row uses one of the first k + 1
            // candidates is now present
            assert forall|s: Seq<usize>|
                #[trigger] solution_seq(s, orig.rank) && s.subrange(0, l) == f && (exists|w: int|
                    0 <= w < k + 1 && s[l] == moves@[w]) implies exists|t: int|
                out0.len() <= t < out@.len() && out@[t].filled@ == s by {
                let w = choose|w: int| 0 <= w < k + 1 && s[l] == moves@[w];
                if w < k {
                    let t = choose|t: int| out0.len() <= t < mid.len() && mid[t].filled@ == s;
                    assert(out@[t].filled@ == s);
                } else {
                    assert(s[l] == c);
                    assert(s.subrange(0, l + 1) =~= f1);
                    let t = choose|t: int|
                        mid.len() <= t < out@.len() && out@[t].filled@ == s;
                    assert(out0.len() <= t < out@.len() && out@[t].filled@ == s);
                }
            }
            // entries of different branches differ in the next row's column
            assert forall|t1: int, t2: int|
                out0.len() <= t1 < t2 < out@.len() implies out@[t1].filled@ != out@[t2].filled@ by {
                if t1 < mid.len() && t2 >= mid.len() {
                    let w = choose|w: int| 0 <= w < k && mid[t1].filled@[l] == moves@[w];
                    assert(out@[t2].filled@[l] == moves@[k as int]);
                    assert(moves@[w] < moves@[k as int]);
                    assert(out@[t1].filled@[l] != out@[t2].filled@[l]);
                }
            }
        }
        k += 1;
    }
    proof {
        // a solution extending the prefix must continue with an available,
        // attack-free column, and those are exactly the candidates
        assert forall|s: Seq<usize>|
            #[trigger] solution_seq(s, orig.rank) && s.subrange(0, l) == f implies exists|t: int|
            out0.len() <= t < out@.len() && out@[t].filled@ == s by {
            let c = s[l];
            assert(c < orig.rank);
            assert forall|j: int| 0 <= j < l implies !queen_conflict(
                j,
                f[j] as int,
                l,
                c as int,
            ) by {
                assert(f[j] == s.subrange(0, l)[j]);
                assert(f[j] == s[j]);
                assert(!queen_conflict(j, s[j] as int, l, s[l] as int));
            }
            assert(queen_ok(f, l, c as int));
            assert(orig.unused@[c as int]) by {
                if !orig.unused@[c as int] {
                    assert(f.contains(c));
                    let w = choose|w: int| 0 <= w < f.len() && f[w] == c;
                    assert(s[w] == f[w]) by {
                        assert(f[w] == s.subrange(0, l)[w]);
                    }
                    assert(queen_conflict(w, s[w] as int, l, s[l] as int));
                }
            }
            assert(moves@.contains(((c as int) as usize)));
            let w = choose|w: int| 0 <= w < moves@.len() && moves@[w] == c;
            assert(exists|w2: int| 0 <= w2 < moves@.len() && s[l] == moves@[w2]);
        }
    }
}

/// Every complete, attack-free queen placement for an `n` by `n` board: each
/// returned state is proved to be a valid solution, every valid solution is
/// proved to be returned, and no placement appears twice.
pub fn n_queens_backtrack(size: usize) -> (r: Vec<NQueensState>)
    ensures
        forall|k: int| 0 <= k < r@.len() ==> queen_solution(#[trigger] r@[k], size),
        forall|s: Seq<usize>|
            #[trigger] solution_seq(s, size) ==> exists|k: int|
                0 <= k < r@.len() && r@[k].filled@ == s,
        forall|k1: int, k2: int| 0 <= k1 < k2 < r@.len() ==> r@[k1].filled@ != r@[k2].filled@,
{
    let mut state = NQueensState::new(size);
    let mut out: Vec<NQueensState> = Vec::new();
    search(&mut state, &mut out);
    proof {
        assert forall|s: Seq<usize>| #[trigger] solution_seq(s, size) implies exists|k: int|
            0 <= k < out@.len() && out@[k].filled@ == s by {
            assert(s.subrange(0, 0) =~= Seq::<usize>::empty());
            assert(s.subrange(0, 0) == state.filled@);
        }
    }
    out
}

/// The symmetry-reduced enumerator: of each dihedral equivalence class of
/// complete, attack-free placements exactly one member is returned — the
/// lexicographically least, as `canonical` states. No two results are
/// images of each other under the eight dihedral transforms, and the
/// orbits of the results cover the whole solution set, so the full count
/// is recovered by summing each result's orbit size.
pub fn n_queens_symmetry(size: usize) -> (r: Vec<NQueensState>)
    ensures
        forall|k: int|
            0 <= k < r@.len() ==> queen_solution(#[trigger] r@[k], size) && canonical(
                size as int,
                r@[k].filled@,
            ),
        forall|s: Seq<usize>|
            #[trigger] solution_seq(s, size) && canonical(size as int, s) ==> exists|k: int|
                0 <= k < r@.len() && r@[k].filled@ == s,
        forall|k1: int, k2: int| 0 <= k1 < k2 < r@.len() ==> r@[k1].filled@ != r@[k2].filled@,
        forall|k1: int, k2: int, t: int|
            0 <= k1 < r@.len() && 0 <= k2 < r@.len() && 0 <= t < 8 && (#[trigger] r@[k1].filled@)
                == #[trigger] sym_apply(t, size as int, r@[k2].filled@) ==> k1 == k2,
        forall|s: Seq<usize>|
            #[trigger] solution_seq(s, size) && (forall|c: int|
                0 <= c < size ==> #[trigger] s.contains(c as usize)) ==> exists|k: int, t: int|
                0 <= k < r@.len() && 0 <= t < 8 && s == sym_apply(t, size as int, r@[k].filled@),
{
    let all = n_queens_backtrack(size);
    let mut out: Vec<NQueensState> = Vec::new();
    let mut k: usize = 0;
    while k < all.len()
        invariant
            k <= all@.len(),
            forall|j: int| 0 <= j < all@.len() ==> queen_solution(#[trigger] all@[j], size),
            forall|s: Seq<usize>|
                #[trigger] solution_seq(s, size) ==> exists|j: int|
                    0 <= j < all@.len() && all@[j].filled@ == s,
            forall|j1: int, j2: int|
                0 <= j1 < j2 < all@.len() ==> all@[j1].filled@ != all@[j2].filled@,
            forall|w: int|
                0 <= w < out@.len() ==> queen_solution(#[trigger] out@[w], size) && canonical(
                    size as int,
                    out@[w].filled@,
                ) && exists|j: int| 0 <= j < k && all@[j].filled@ == out@[w].filled@,
            forall|j: int|
                0 <= j < k && canonical(size as int, #[trigger] all@[j].filled@) ==> exists|w: int|
                    0 <= w < out@.len() && out@[w].filled@ == all@[j].filled@,
            forall|w1: int, w2: int|
                0 <= w1 < w2 < out@.len() ==> out@[w1].filled@ != out@[w2].filled@,
        decreases all@.len() - k,
    {
        let st = &all[k];
        proof {
            assert(queen_solution(all@[k as int], size));
            assert(is_col_permutation(st.filled@, size as int));
        }
        let ghost out_old = out@;
        if is_canonical(size, &st.filled) {
            let copy = st.duplicate();
            out.push(copy);
            proof {
                assert(queen_solution(copy, size));
                assert(out@[out@.len() - 1] == copy);
                assert forall|w: int|
                    0 <= w < out@.len() implies queen_solution(#[trigger] out@[w], size)
                    && canonical(size as int, out@[w].filled@) && exists|j: int|
                    0 <= j < k + 1 && all@[j].filled@ == out@[w].filled@ by {
                    if w < out_old.len() {
                        assert(out@[w] == out_old[w]);
                        let j = choose|j: int| 0 <= j < k && all@[j].filled@ == out_old[w].filled@;
                        assert(0 <= j < k + 1 && all@[j].filled@ == out@[w].filled@);
                    } else {
                        assert(all@[k as int].filled@ == out@[w].filled@);
                    }
                }
                assert forall|w1: int, w2: int|
                    0 <= w1 < w2 < out@.len() implies out@[w1].filled@ != out@[w2].filled@ by {
                    if w2 == out@.len() - 1 {
                        let j = choose|j: int|
                            0 <= j < k && all@[j].filled@ == out_old[w1].filled@;
                        assert(all@[j].filled@ != all@[k as int].filled@);
                        assert(out@[w1].filled@ == out_old[w1].filled@);
                    }
                }
            }
        }
        proof {
            assert forall|j: int|
                0 <= j < k + 1 && canonical(size as int, #[trigger] all@[j].filled@) implies exists|
                w: int,
            | 0 <= w < out@.len() && out@[w].filled@ == all@[j].filled@ by {
                if j < k {
                    let w = choose|w: int|
                        0 <= w < out_old.len() && out_old[w].filled@ == all@[j].filled@;
                    assert(out@[w] == out_old[w]);
                } else {
                    assert(out@[out@.len() - 1].filled@ == all@[k as int].filled@);
                }
            }
        }
        k += 1;
    }
    proof {
        assert forall|s: Seq<usize>|
            #[trigger] solution_seq(s, size) && canonical(size as int, s) implies exists|k0: int|
            0 <= k0 < out@.len() && out@[k0].filled@ == s by {
            let j = choose|j: int| 0 <= j < all@.len() && all@[j].filled@ == s;
            assert(canonical(size as int, all@[j].filled@));
        }
        assert forall|k1: int, k2: int, t: int|
            0 <= k1 < out@.len() && 0 <= k2 < out@.len() && 0 <= t < 8 && (#[trigger] out@[k1].filled@)
                == #[trigger] sym_apply(t, size as int, out@[k2].filled@) implies k1 == k2 by {
            assert(is_col_permutation(out@[k1].filled@, size as int));
            assert(is_col_permutation(out@[k2].filled@, size as int));
            lemma_canonical_unique(size as int, out@[k2].filled@, out@[k1].filled@, t);
            if k1 < k2 {
                assert(out@[k1].filled@ != out@[k2].filled@);
            } else if k2 < k1 {
                assert(out@[k2].filled@ != out@[k1].filled@);
            }
        }
        assert forall|s: Seq<usize>|
            #[trigger] solution_seq(s, size) && (forall|c: int|
                0 <= c < size ==> #[trigger] s.contains(c as usize)) implies exists|k0: int, t: int|
            0 <= k0 < out@.len() && 0 <= t < 8 && s == sym_apply(
                t,
                size as int,
                out@[k0].filled@,
            ) by {
            assert(is_col_permutation(s, size as int)) by {
                assert forall|i: int, j: int| 0 <= i < j < s.len() implies s[i] != s[j] by {
                    assert(!queen_conflict(i, s[i] as int, j, s[j] as int));
                }
            }
            let t = lemma_orbit_has_canonical(size as int, s);
            let q = sym_apply(t, size as int, s);
            assert(solution_seq(q, size));
            let k0 = choose|k0: int| 0 <= k0 < out@.len() && out@[k0].filled@ == q;
            assert(0 <= k0 < out@.len() && 0 <= sym_inv(t) < 8 && s == sym_apply(
                sym_inv(t),
                size as int,
                out@[k0].filled@,
            ));
        }
    }
    out
}

/// Law: placing a column and immediately unplacing it restores the state
/// observationally — same rank, same filled rows, same availability mask.
/// `s1` is constrained exactly as `go_walk`'s contract leaves it, and `s2`
/// exactly as `go_back`'s contract leaves `s1`.
pub proof fn lemma_place_unplace_roundtrip(
    s: NQueensState,
    s1: NQueensState,
    s2: NQueensState,
    column: usize,
)
    requires
        s.wf(),
        column < s.rank,
        s.unused@[column as int],
        s1.rank == s.rank,
        s1.filled@ == s.filled@.push(column),
        s1.unused@ == s.unused@.update(column as int, false),
        s2.rank == s1.rank,
        s1.filled@.len() > 0,
        s2.filled@ == s1.filled@.drop_last(),
        s2.unused@ == s1.unused@.update(s1.filled@.last() as int, true),
    ensures
        s2.rank == s.rank,
        s2.filled@ == s.filled@,
        s2.unused@ == s.unused@,
{
    assert(s1.filled@.last() == column);
    assert(s2.filled@ =~= s.filled@);
    assert(s2.unused@ =~= s.unused@);
}

/// The closed-form column value (one-based, in `[1, n]`) placed in the
/// one-based row `r + 1` of an `n` board, by the case split on `n mod 6`
/// and `n mod 12`.
pub open spec fn modular_shift(n: int, r: int) -> int {
    let i = r + 1;
    let m = n + 1;
    if n % 12 == 2 {
        let k = n / 2;
        if i == n {
            (2 * i + 4) % m
        } else if i < k && i % 2 == 1 {
            (2 * i + 4) % m
        } else if i < k && i % 2 == 0 {
            (2 * i) % m
        } else {
            (2 * i + 2) % m
        }
    } else if n % 12 == 8 {
        let k = n / 2;
        if i > k && i % 2 == 1 {
            (2 * i + 2) % m
        } else if i > k && i % 2 == 0 {
            (2 * i - 2) % m
        } else {
            (2 * i) % m
        }
    } else if n % 6 == 0 || n % 6 == 4 {
        (2 * i) % m
    } else if n % 6 == 1 || n % 6 == 5 {
        let k = n / 2;
        if i > k {
            (2 * i + 1) % m
        } else {
            (2 * i) % m
        }
    } else {
        let k = (n - 1) / 2;
        if i < k {
            (2 * i + 2) % m
        } else if i > k {
            (2 * i + 5) % m
        } else {
            (2 * i + 4) % m
        }
    }
}

/// What `x % m` is while `x` stays below three times the modulus.
proof fn lemma_mod_value(x: int, m: int)
    requires
        0 < m,
        0 <= x < 3 * m,
    ensures
        x % m == if x < m {
            x
        } else if x < 2 * m {
            x - m
        } else {
            x - 2 * m
        },
{
    if x < m {
        vstd::arithmetic::div_mod::lemma_small_mod(x as nat, m as nat);
    } else if x < 2 * m {
        vstd::arithmetic::div_mod::lemma_mod_multiples_vanish(1, x - m, m);
        vstd::arithmetic::div_mod::lemma_small_mod((x - m) as nat, m as nat);
    } else {
        vstd::arithmetic::div_mod::lemma_mod_multiples_vanish(2, x - 2 * m, m);
        vstd::arithmetic::div_mod::lemma_small_mod((x - 2 * m) as nat, m as nat);
    }
}

/// `(m * q + b) % m` is `b` for a small rest `b`.
proof fn lemma_rem(q: int, b: int, m: int)
    requires
        0 < m,
        0 <= b < m,
    ensures
        (m * q + b) % m == b,
{
    vstd::arithmetic::div_mod::lemma_mod_multiples_vanish(q, b, m);
    vstd::arithmetic::div_mod::lemma_small_mod(b as nat, m as nat);
}

/// Boards of size 12t + 2: odd rows below the half take `2i + 4`, even rows
/// `2i`, the upper half `2i + 2`, the last row wraps to column 2.
#[verifier::rlimit(100)]
proof fn lemma_case_two(n: int)
    requires
        4 <= n,
        n % 12 == 2,
    ensures
        forall|r: int| 0 <= r < n ==> 1 <= #[trigger] modular_shift(n, r) <= n,
        forall|r1: int, r2: int|
            0 <= r1 < r2 < n ==> !queen_conflict(
                r1,
                modular_shift(n, r1) - 1,
                r2,
                modular_shift(n, r2) - 1,
            ),
{
    let m = n + 1;
    let t = n / 12;
    assert(n == 12 * t + 2);
    assert(m % 2 == 1) by {
        lemma_rem(6 * t + 1, 1, 2);
    }
    assert(m % 3 == 0) by {
        lemma_rem(4 * t + 1, 0, 3);
    }
    let k = n / 2;
    assert(k == 6 * t + 1);
    assert(n >= 14);
    assert forall|r: int| 0 <= r < n implies 1 <= #[trigger] modular_shift(n, r) <= n by {
        lemma_case_two_piece(n, r);
    }
    assert forall|r1: int, r2: int|
        0 <= r1 < r2 < n implies !queen_conflict(
        r1,
        modular_shift(n, r1) - 1,
        r2,
        modular_shift(n, r2) - 1,
    ) by {
        lemma_case_two_piece(n, r1);
        lemma_case_two_piece(n, r2);
    }
}

/// The piecewise linear value of a single row in the 12t + 2 case.
#[verifier::rlimit(100)]
proof fn lemma_case_two_piece(n: int, r: int)
    requires
        4 <= n,
        n % 12 == 2,
        0 <= r < n,
    ensures
        ({
            let i = r + 1;
            let m = n + 1;
            let k = n / 2;
            modular_shift(n, r) == if i == n {
                2int
            } else if i < k && i % 2 == 1 {
                2 * i + 4
            } else if i < k && i % 2 == 0 {
                2 * i
            } else {
                2 * i + 2 - m
            }
        }),
        1 <= modular_shift(n, r) <= n,
{
    let i = r + 1;
    let m = n + 1;
    let t = n / 12;
    assert(n == 12 * t + 2);
    let k = n / 2;
    assert(k == 6 * t + 1);
    if i == n {
        lemma_mod_value(2 * i + 4, m);
        assert(2 * i + 4 == 2 * m + 2);
    } else if i < k && i % 2 == 1 {
        lemma_mod_value(2 * i + 4, m);
        assert(i != k - 1);
        assert(2 * i + 4 <= 2 * k == n < m);
    } else if i < k && i % 2 == 0 {
        lemma_mod_value(2 * i, m);
        assert(2 * i < m);
    } else {
        lemma_mod_value(2 * i + 2, m);
        assert(k <= i < n);
        assert(m < 2 * i + 2 < 2 * m);
    }
}

/// Boards of size 12t + 8: the lower half takes `2i`, the upper half
/// alternates `2i + 2` (odd rows) and `2i - 2` (even rows), wrapping once.
#[verifier::rlimit(100)]
proof fn lemma_case_eight(n: int)
    requires
        4 <= n,
        n % 12 == 8,
    ensures
        forall|r: int| 0 <= r < n ==> 1 <= #[trigger] modular_shift(n, r) <= n,
        forall|r1: int, r2: int|
            0 <= r1 < r2 < n ==> !queen_conflict(
                r1,
                modular_shift(n, r1) - 1,
                r2,
                modular_shift(n, r2) - 1,
            ),
{
    let m = n + 1;
    let t = n / 12;
    assert(n == 12 * t + 8);
    assert(m % 2 == 1) by {
        lemma_rem(6 * t + 4, 1, 2);
    }
    assert(m % 3 == 0) by {
        lemma_rem(4 * t + 3, 0, 3);
    }
    assert forall|r: int| 0 <= r < n implies 1 <= #[trigger] modular_shift(n, r) <= n by {
        lemma_case_eight_piece(n, r);
    }
    assert forall|r1: int, r2: int|
        0 <= r1 < r2 < n implies !queen_conflict(
        r1,
        modular_shift(n, r1) - 1,
        r2,
        modular_shift(n, r2) - 1,
    ) by {
        lemma_case_eight_piece(n, r1);
        lemma_case_eight_piece(n, r2);
    }
}

/// The piecewise linear value of a single row in the 12t + 8 case.
#[verifier::rlimit(100)]
proof fn lemma_case_eight_piece(n: int, r: int)
    requires
        4 <= n,
        n % 12 == 8,
        0 <= r < n,
    ensures
        ({
            let i = r + 1;
            let m = n + 1;
            let k = n / 2;
            modular_shift(n, r) == if i > k && i % 2 == 1 {
                2 * i + 2 - m
            } else if i > k && i % 2 == 0 {
                2 * i - 2 - m
            } else {
                2 * i
            }
        }),
        1 <= modular_shift(n, r) <= n,
{
    let i = r + 1;
    let m = n + 1;
    let t = n / 12;
    assert(n == 12 * t + 8);
    let k = n / 2;
    assert(k == 6 * t + 4);
    if i > k && i % 2 == 1 {
        lemma_mod_value(2 * i + 2, m);
        assert(i <= n - 1);
        assert(m < 2 * i + 2 < 2 * m);
    } else if i > k && i % 2 == 0 {
        lemma_mod_value(2 * i - 2, m);
        assert(i >= k + 2);
        assert(m < 2 * i - 2 < 2 * m);
    } else {
        lemma_mod_value(2 * i, m);
        assert(2 * i <= 2 * k == n < m);
    }
}

/// Even boards outside the two special classes: row `i` takes `2i`,
/// wrapping once past the half.
#[verifier::rlimit(100)]
proof fn lemma_case_even(n: int)
    requires
        4 <= n,
        n % 6 == 0 || n % 6 == 4,
    ensures
        forall|r: int| 0 <= r < n ==> 1 <= #[trigger] modular_shift(n, r) <= n,
        forall|r1: int, r2: int|
            0 <= r1 < r2 < n ==> !queen_conflict(
                r1,
                modular_shift(n, r1) - 1,
                r2,
                modular_shift(n, r2) - 1,
            ),
{
    let m = n + 1;
    let q = n / 6;
    assert(n == 6 * q + n % 6);
    if n % 6 == 0 {
        assert(m % 2 == 1) by {
            lemma_rem(3 * q, 1, 2);
        }
        assert(m % 3 == 1) by {
            lemma_rem(2 * q, 1, 3);
        }
    } else {
        assert(m % 2 == 1) by {
            lemma_rem(3 * q + 2, 1, 2);
        }
        assert(m % 3 == 2) by {
            lemma_rem(2 * q + 1, 2, 3);
        }
    }
    assert forall|r1: int, r2: int|
        0 <= r1 < r2 < n implies !queen_conflict(
        r1,
        modular_shift(n, r1) - 1,
        r2,
        modular_shift(n, r2) - 1,
    ) by {
        let i = r1 + 1;
        let j = r2 + 1;
        lemma_mod_value(2 * i, m);
        lemma_mod_value(2 * j, m);
        assert(2 * i != m && 2 * j != m);
    }
    assert forall|r: int| 0 <= r < n implies 1 <= #[trigger] modular_shift(n, r) <= n by {
        let i = r + 1;
        lemma_mod_value(2 * i, m);
        assert(2 * i != m);
    }
}

/// Odd boards of residue 1 or 5: the lower half takes `2i`, the upper half
/// `2i + 1`, wrapping once.
#[verifier::rlimit(100)]
proof fn lemma_case_odd(n: int)
    requires
        4 <= n,
        n % 6 == 1 || n % 6 == 5,
    ensures
        forall|r: int| 0 <= r < n ==> 1 <= #[trigger] modular_shift(n, r) <= n,
        forall|r1: int, r2: int|
            0 <= r1 < r2 < n ==> !queen_conflict(
                r1,
                modular_shift(n, r1) - 1,
                r2,
                modular_shift(n, r2) - 1,
            ),
{
    let m = n + 1;
    let q = n / 6;
    assert(n == 6 * q + n % 6);
    if n % 6 == 1 {
        assert(m % 2 == 0) by {
            lemma_rem(3 * q + 1, 0, 2);
        }
        assert(m % 3 == 2) by {
            lemma_rem(2 * q, 2, 3);
        }
    } else {
        assert(m % 2 == 0) by {
            lemma_rem(3 * q + 3, 0, 2);
        }
        assert(m % 3 == 0) by {
            lemma_rem(2 * q + 2, 0, 3);
        }
    }
    let k = n / 2;
    assert(n == 2 * k + 1);
    assert forall|r1: int, r2: int|
        0 <= r1 < r2 < n implies !queen_conflict(
        r1,
        modular_shift(n, r1) - 1,
        r2,
        modular_shift(n, r2) - 1,
    ) by {
        lemma_case_odd_piece(n, r1);
        lemma_case_odd_piece(n, r2);
    }
    assert forall|r: int| 0 <= r < n implies 1 <= #[trigger] modular_shift(n, r) <= n by {
        lemma_case_odd_piece(n, r);
    }
}

/// The piecewise linear value of a single row in the odd-residue case.
#[verifier::rlimit(100)]
proof fn lemma_case_odd_piece(n: int, r: int)
    requires
        4 <= n,
        n % 6 == 1 || n % 6 == 5,
        0 <= r < n,
    ensures
        ({
            let i = r + 1;
            let m = n + 1;
            let k = n / 2;
            modular_shift(n, r) == if i > k {
                2 * i + 1 - m
            } else {
                2 * i
            }
        }),
        1 <= modular_shift(n, r) <= n,
{
    let i = r + 1;
    let m = n + 1;
    let k = n / 2;
    assert(n == 2 * k + 1);
    if i > k {
        lemma_mod_value(2 * i + 1, m);
        assert(m < 2 * i + 1 < 2 * m);
    } else {
        lemma_mod_value(2 * i, m);
        assert(2 * i <= 2 * k == n - 1 < m);
    }
}

/// Boards of residue 3: rows below the middle take `2i + 2`, the middle row
/// wraps to column 2, the rows above take `2i + 5`, the last two wrapping
/// twice to columns 1 and 3.
#[verifier::rlimit(100)]
proof fn lemma_case_three(n: int)
    requires
        4 <= n,
        n % 6 == 3,
    ensures
        forall|r: int| 0 <= r < n ==> 1 <= #[trigger] modular_shift(n, r) <= n,
        forall|r1: int, r2: int|
            0 <= r1 < r2 < n ==> !queen_conflict(
                r1,
                modular_shift(n, r1) - 1,
                r2,
                modular_shift(n, r2) - 1,
            ),
{
    let m = n + 1;
    let t = n / 6;
    assert(n == 6 * t + 3);
    assert(n >= 9);
    assert(m % 2 == 0) by {
        lemma_rem(3 * t + 2, 0, 2);
    }
    assert(m % 3 == 1) by {
        lemma_rem(2 * t + 1, 1, 3);
    }
    assert forall|r: int| 0 <= r < n implies 1 <= #[trigger] modular_shift(n, r) <= n by {
        lemma_case_three_piece(n, r);
    }
    assert forall|r1: int, r2: int|
        0 <= r1 < r2 < n implies !queen_conflict(
        r1,
        modular_shift(n, r1) - 1,
        r2,
        modular_shift(n, r2) - 1,
    ) by {
        lemma_case_three_piece(n, r1);
        lemma_case_three_piece(n, r2);
    }
}

/// The piecewise linear value of a single row in the residue-3 case.
#[verifier::rlimit(100)]
proof fn lemma_case_three_piece(n: int, r: int)
    requires
        4 <= n,
        n % 6 == 3,
        0 <= r < n,
    ensures
        ({
            let i = r + 1;
            let m = n + 1;
            let k = (n - 1) / 2;
            modular_shift(n, r) == if i < k {
                2 * i + 2
            } else if i == k {
                2int
            } else if i <= n - 2 {
                2 * i + 5 - m
            } else if i == n - 1 {
                1int
            } else {
                3int
            }
        }),
        1 <= modular_shift(n, r) <= n,
{
    let i = r + 1;
    let m = n + 1;
    let t = n / 6;
    assert(n == 6 * t + 3);
    assert(n >= 9);
    let k = (n - 1) / 2;
    assert(k == 3 * t + 1);
    if i < k {
        lemma_mod_value(2 * i + 2, m);
        assert(2 * i + 2 <= 2 * k == n - 1 < m);
    } else if i == k {
        lemma_mod_value(2 * i + 4, m);
        assert(2 * i + 4 == m + 2);
    } else if i <= n - 2 {
        lemma_mod_value(2 * i + 5, m);
        assert(m < 2 * i + 5 < 2 * m);
    } else if i == n - 1 {
        lemma_mod_value(2 * i + 5, m);
        assert(2 * i + 5 == 2 * m + 1);
    } else {
        assert(i == n);
        lemma_mod_value(2 * i + 5, m);
        assert(2 * i + 5 == 2 * m + 3);
        assert(2 * m + 3 < 3 * m);
    }
}

/// Every closed-form arrangement is in range and attack-free, whatever the
/// residue of `n`.
proof fn lemma_modular_safe(n: int)
    requires
        4 <= n,
    ensures
        forall|r: int| 0 <= r < n ==> 1 <= #[trigger] modular_shift(n, r) <= n,
        forall|r1: int, r2: int|
            0 <= r1 < r2 < n ==> !queen_conflict(
                r1,
                modular_shift(n, r1) - 1,
                r2,
                modular_shift(n, r2) - 1,
            ),
{
    if n % 12 == 2 {
        lemma_case_two(n);
    } else if n % 12 == 8 {
        lemma_case_eight(n);
    } else if n % 6 == 0 || n % 6 == 4 {
        lemma_case_even(n);
    } else if n % 6 == 1 || n % 6 == 5 {
        lemma_case_odd(n);
    } else {
        assert(n % 6 == 3) by {
            let t = n % 12;
            assert(n == 12 * (n / 12) + t);
            assert(n % 6 == t % 6) by {
                vstd::arithmetic::div_mod::lemma_mod_multiples_vanish(2 * (n / 12), t, 6);
            }
        }
        lemma_case_three(n);
    }
}

/// Direct construction of one valid queen placement in linear time, by the
/// closed-form case split on `n mod 6` and `n mod 12`. Boards of size 0, 2
/// and 3 have no solution; size 1 is the single-queen board; every other
/// size is constructible, and the returned placement is proved to be a
/// valid solution.
pub fn n_queens_modular(n: usize) -> (r: Option<NQueensState>)
    ensures
        r is Some ==> queen_solution(r.unwrap(), n),
        n == 0 || n == 2 || n == 3 ==> r is None,
        n == 1 ==> r is Some && r.unwrap().filled@ == seq![0usize],
        4 <= n ==> r is Some,
{
    if n == 0 || n == 2 || n == 3 {
        return None;
    }
    if n == 1 {
        let mut filled: Vec<usize> = Vec::new();
        filled.push(0);
        let mut unused: Vec<bool> = Vec::new();
        unused.push(false);
        let s = NQueensState { rank: 1, filled, unused };
        proof {
            assert(s.filled@ =~= seq![0usize]);
            assert(s.filled@[0] == 0usize);
            assert(s.filled@.contains(0usize));
            assert forall|c: int| 0 <= c < 1 implies #[trigger] s.filled@.contains(c as usize) by {
                assert(c == 0);
            }
            assert(count_true(s.unused@) == 0) by {
                lemma_count_true_zero(s.unused@);
            }
        }
        return Some(s);
    }
    proof {
        lemma_modular_safe(n as int);
    }
    let m: u128 = n as u128 + 1;
    let mut state = NQueensState::new(n);
    let mut i: usize = 0;
    while i < n
        invariant
            4 <= n,
            m == n as u128 + 1,
            i <= n,
            state.wf(),
            state.rank == n,
            state.filled@.len() == i,
            queen_safe(state.filled@),
            forall|t: int|
                0 <= t < i ==> state.filled@[t] as int == modular_shift(n as int, t) - 1,
            forall|r: int| 0 <= r < n ==> 1 <= #[trigger] modular_shift(n as int, r) <= n,
            forall|r1: int, r2: int|
                0 <= r1 < r2 < n ==> !queen_conflict(
                    r1,
                    modular_shift(n as int, r1) - 1,
                    r2,
                    modular_shift(n as int, r2) - 1,
                ),
        decreases n - i,
    {
        // `p` is the one-based row index of the published formulas.
        let p: u128 = i as u128 + 1;
        let v: u128 = if n % 12 == 2 {
            let k = (n / 2) as u128;
            if p == n as u128 {
                (2 * p + 4) % m
            } else if p < k && p % 2 == 1 {
                (2 * p + 4) % m
            } else if p < k && p % 2 == 0 {
                (2 * p) % m
            } else {
                (2 * p + 2) % m
            }
        } else if n % 12 == 8 {
            let k = (n / 2) as u128;
            if p > k && p % 2 == 1 {
                (2 * p + 2) % m
            } else if p > k && p % 2 == 0 {
                (2 * p - 2) % m
            } else {
                (2 * p) % m
            }
        } else if n % 6 == 0 || n % 6 == 4 {
            (2 * p) % m
        } else if n % 6 == 1 || n % 6 == 5 {
            let k = (n / 2) as u128;
            if p > k {
                (2 * p + 1) % m
            } else {
                (2 * p) % m
            }
        } else {
            let k = ((n - 1) / 2) as u128;
            if p < k {
                (2 * p + 2) % m
            } else if p > k {
                (2 * p + 5) % m
            } else {
                (2 * p + 4) % m
            }
        };
        proof {
            assert(v as int == modular_shift(n as int, i as int));
            assert(1 <= modular_shift(n as int, i as int) <= n);
        }
        let c = (v - 1) as usize;
        proof {
            assert(c as int == modular_shift(n as int, i as int) - 1);
            assert(c < n);
            assert(queen_ok(state.filled@, i as int, c as int)) by {
                assert forall|j: int| 0 <= j < i implies !queen_conflict(
                    j,
                    state.filled@[j] as int,
                    i as int,
                    c as int,
                ) by {
                    assert(state.filled@[j] as int == modular_shift(n as int, j) - 1);
                    assert(!queen_conflict(
                        j,
                        modular_shift(n as int, j) - 1,
                        i as int,
                        modular_shift(n as int, i as int) - 1,
                    ));
                }
            }
            assert(state.unused@[c as int]) by {
                if !state.unused@[c as int] {
                    assert(state.filled@.contains(c));
                    let w = choose|w: int|
                        0 <= w < state.filled@.len() && state.filled@[w] == c;
                    assert(state.filled@[w] as int == modular_shift(n as int, w) - 1);
                    assert(!queen_conflict(
                        w,
                        modular_shift(n as int, w) - 1,
                        i as int,
                        modular_shift(n as int, i as int) - 1,
                    ));
                }
            }
        }
        let ghost pre = state.filled@;
        state.go_walk(c);
        proof {
            lemma_queen_safe_push(pre, c);
        }
        i += 1;
    }
    proof {
        lemma_full_is_solution(state);
    }
    Some(state)
}

} // verus!
