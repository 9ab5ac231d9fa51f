//! Rook ("castle") placements. Rooks conflict only on shared columns here
//! (rows are distinct by construction), so the complete placements are
//! exactly the permutations of the columns, which itertools generates.
use crate::geometry::is_col_permutation;
use vstd::prelude::*;

verus! {

/// A complete placement of `size` rooks, one column per row.
pub struct NCastlesState {
    pub size: usize,
    pub filled: Vec<usize>,
}

/// Relies on itertools' `Itertools::permutations`: called on the iterator
/// `0..n` with length `n`, it yields every permutation of `0..n` exactly
/// once, each as a fresh vector of length `n`.
#[verifier::external_body]
fn permutations_of(n: usize) -> (r: Vec<Vec<usize>>)
    ensures
        forall|k: int| 0 <= k < r@.len() ==> is_col_permutation((#[trigger] r@[k])@, n as int),
        forall|k1: int, k2: int| 0 <= k1 < k2 < r@.len() ==> r@[k1]@ != r@[k2]@,
        forall|s: Seq<usize>|
            is_col_permutation(s, n as int) ==> exists|k: int| 0 <= k < r@.len() && (#[trigger] r@[k])@ == s,
{
    itertools::Itertools::permutations(0..n, n).collect()
}

/// Every placement of `size` non-attacking rooks: each assignment of one
/// column per row with all columns distinct, each exactly once.
pub fn n_castles_permute(size: usize) -> (r: Vec<NCastlesState>)
    ensures
        forall|k: int|
            0 <= k < r@.len() ==> (#[trigger] r@[k]).size == size && is_col_permutation(
                r@[k].filled@,
                size as int,
            ),
        forall|k1: int, k2: int| 0 <= k1 < k2 < r@.len() ==> r@[k1].filled@ != r@[k2].filled@,
        forall|s: Seq<usize>|
            is_col_permutation(s, size as int) ==> exists|k: int|
                0 <= k < r@.len() && (#[trigger] r@[k]).filled@ == s,
{
    let perms = permutations_of(size);
    let ghost pv = perms@;
    let mut out: Vec<NCastlesState> = Vec::new();
    let mut k: usize = 0;
    while k < perms.len()
        invariant
            k <= pv.len(),
            pv == perms@,
            out@.len() == k,
            forall|t: int| 0 <= t < pv.len() ==> is_col_permutation((#[trigger] pv[t])@, size as int),
            forall|t1: int, t2: int| 0 <= t1 < t2 < pv.len() ==> pv[t1]@ != pv[t2]@,
            forall|t: int|
                0 <= t < k ==> (#[trigger] out@[t]).size == size && out@[t].filled@ == pv[t]@,
        decreases pv.len() - k,
    {
        let mut filled: Vec<usize> = Vec::new();
        let mut j: usize = 0;
        while j < perms[k].len()
            invariant
                k < pv.len(),
                pv == perms@,
                j <= pv[k as int]@.len(),
                filled@ == pv[k as int]@.subrange(0, j as int),
            decreases pv[k as int]@.len() - j,
        {
            filled.push(perms[k][j]);
            proof {
                assert(filled@ =~= pv[k as int]@.subrange(0, j + 1));
            }
            j += 1;
        }
        proof {
            assert(filled@ =~= pv[k as int]@);
        }
        out.push(NCastlesState { size, filled });
        k += 1;
    }
    proof {
        assert forall|s: Seq<usize>| is_col_permutation(s, size as int) implies exists|t: int|
            0 <= t < out@.len() && (#[trigger] out@[t]).filled@ == s by {
            let w = choose|w: int| 0 <= w < pv.len() && (#[trigger] pv[w])@ == s;
            assert(out@[w].filled@ == s);
        }
    }
    out
}

} // verus!
