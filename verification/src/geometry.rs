//! Attack geometry of the pieces, stated over mathematical sequences, and the
//! small counting facts that the board states rely on.
use vstd::prelude::*;

verus! {

/// A queen on row `r1`, column `c1` attacks row `r2`, column `c2` when they
/// share a column or one of the two diagonals (rows are distinct by
/// construction: one piece per row).
pub open spec fn queen_conflict(r1: int, c1: int, r2: int, c2: int) -> bool {
    c1 == c2 || c1 + r1 == c2 + r2 || c1 - r1 == c2 - r2
}

/// A bishop attacks only along the two diagonals; sharing a column is legal.
pub open spec fn bishop_conflict(r1: int, c1: int, r2: int, c2: int) -> bool {
    c1 + r1 == c2 + r2 || c1 - r1 == c2 - r2
}

/// Placing `col` in row `row` conflicts with none of the earlier rows.
pub open spec fn queen_ok(filled: Seq<usize>, row: int, col: int) -> bool {
    forall|j: int| 0 <= j < filled.len() ==> !queen_conflict(j, filled[j] as int, row, col)
}

pub open spec fn bishop_ok(filled: Seq<usize>, row: int, col: int) -> bool {
    forall|j: int| 0 <= j < filled.len() ==> !bishop_conflict(j, filled[j] as int, row, col)
}

/// No two placed queens attack each other.
pub open spec fn queen_safe(filled: Seq<usize>) -> bool {
    forall|i: int, j: int|
        0 <= i < j < filled.len() ==> !queen_conflict(i, filled[i] as int, j, filled[j] as int)
}

pub open spec fn bishop_safe(filled: Seq<usize>) -> bool {
    forall|i: int, j: int|
        0 <= i < j < filled.len() ==> !bishop_conflict(i, filled[i] as int, j, filled[j] as int)
}

/// `s` assigns each of the `n` columns to exactly one row.
pub open spec fn is_col_permutation(s: Seq<usize>, n: int) -> bool {
    &&& s.len() == n
    &&& forall|i: int| 0 <= i < s.len() ==> (#[trigger] s[i]) < n
    &&& forall|i: int, j: int| 0 <= i < j < s.len() ==> s[i] != s[j]
    &&& forall|c: int| 0 <= c < n ==> #[trigger] s.contains(c as usize)
}

pub proof fn lemma_queen_safe_push(filled: Seq<usize>, col: usize)
    requires
        queen_safe(filled),
        queen_ok(filled, filled.len() as int, col as int),
    ensures
        queen_safe(filled.push(col)),
{
    let f2 = filled.push(col);
    assert forall|i: int, j: int| 0 <= i < j < f2.len() implies !queen_conflict(
        i,
        f2[i] as int,
        j,
        f2[j] as int,
    ) by {
        if j < filled.len() {
            assert(!queen_conflict(i, filled[i] as int, j, filled[j] as int));
        } else {
            assert(f2[j] == col);
            assert(f2[i] == filled[i]);
            assert(!queen_conflict(i, filled[i] as int, filled.len() as int, col as int));
        }
    }
}

pub proof fn lemma_bishop_safe_push(filled: Seq<usize>, col: usize)
    requires
        bishop_safe(filled),
        bishop_ok(filled, filled.len() as int, col as int),
    ensures
        bishop_safe(filled.push(col)),
{
    let f2 = filled.push(col);
    assert forall|i: int, j: int| 0 <= i < j < f2.len() implies !bishop_conflict(
        i,
        f2[i] as int,
        j,
        f2[j] as int,
    ) by {
        if j < filled.len() {
            assert(!bishop_conflict(i, filled[i] as int, j, filled[j] as int));
        } else {
            assert(f2[j] == col);
            assert(f2[i] == filled[i]);
            assert(!bishop_conflict(i, filled[i] as int, filled.len() as int, col as int));
        }
    }
}

/// The eight images of the cell `(x, y)` on an `n` by `n` board under the
/// dihedral group: identity, the three rotations and the four reflections.
pub open spec fn sym_images(n: int, x: int, y: int) -> Seq<(int, int)> {
    seq![
        (x, y),
        (x, n - 1 - y),
        (n - 1 - x, y),
        (n - 1 - x, n - 1 - y),
        (y, x),
        (y, n - 1 - x),
        (n - 1 - y, x),
        (n - 1 - y, n - 1 - x),
    ]
}

/// `(a, b)` is a dihedral image of `(x, y)`.
pub open spec fn sym_related(n: int, x: int, y: int, a: int, b: int) -> bool {
    sym_images(n, x, y).contains((a, b))
}

/// Membership in a pushed sequence, spelled out for the set-style proofs.
pub proof fn lemma_push_contains(s: Seq<usize>, v: usize)
    ensures
        forall|a: usize| #[trigger] s.push(v).contains(a) <==> (s.contains(a) || a == v),
{
    assert forall|a: usize| #[trigger] s.push(v).contains(a) <==> (s.contains(a) || a == v) by {
        if s.push(v).contains(a) {
            let w = choose|w: int| 0 <= w < s.push(v).len() && s.push(v)[w] == a;
            if w < s.len() {
                assert(s[w] == a);
            }
        }
        if s.contains(a) {
            let w = choose|w: int| 0 <= w < s.len() && s[w] == a;
            assert(s.push(v)[w] == a);
        }
        assert(s.push(v)[s.len() as int] == v);
    }
}

/// How many entries of the availability mask are still set.
pub open spec fn count_true(s: Seq<bool>) -> int
    decreases s.len(),
{
    if s.len() == 0 {
        0
    } else {
        count_true(s.drop_last()) + if s.last() {
            1int
        } else {
            0int
        }
    }
}

pub proof fn lemma_count_true_update(s: Seq<bool>, i: int, v: bool)
    requires
        0 <= i < s.len(),
    ensures
        count_true(s.update(i, v)) == count_true(s) - (if s[i] {
            1int
        } else {
            0int
        }) + (if v {
            1int
        } else {
            0int
        }),
    decreases s.len(),
{
    if i == s.len() - 1 {
        assert(s.update(i, v).drop_last() =~= s.drop_last());
        assert(s.update(i, v).last() == v);
    } else {
        assert(s.update(i, v).drop_last() =~= s.drop_last().update(i, v));
        assert(s.update(i, v).last() == s.last());
        lemma_count_true_update(s.drop_last(), i, v);
    }
}

pub proof fn lemma_count_true_bounds(s: Seq<bool>)
    ensures
        0 <= count_true(s) <= s.len(),
    decreases s.len(),
{
    if s.len() > 0 {
        lemma_count_true_bounds(s.drop_last());
    }
}

/// A mask with no bit set counts zero, and conversely.
pub proof fn lemma_count_true_zero(s: Seq<bool>)
    ensures
        (count_true(s) == 0) <==> (forall|i: int| 0 <= i < s.len() ==> !s[i]),
    decreases s.len(),
{
    if s.len() > 0 {
        lemma_count_true_zero(s.drop_last());
        lemma_count_true_bounds(s.drop_last());
        if count_true(s) == 0 {
            assert forall|i: int| 0 <= i < s.len() implies !s[i] by {
                if i < s.len() - 1 {
                    assert(s.drop_last()[i] == s[i]);
                }
            }
        } else {
            if forall|i: int| 0 <= i < s.len() ==> !s[i] {
                assert forall|i: int| 0 <= i < s.drop_last().len() implies !s.drop_last()[i] by {
                    assert(s.drop_last()[i] == s[i]);
                }
                assert(!s.last());
                assert(count_true(s) == 0);
            }
        }
    }
}

/// A mask with every bit set counts its full length.
pub proof fn lemma_count_all_true(s: Seq<bool>)
    requires
        forall|i: int| 0 <= i < s.len() ==> s[i],
    ensures
        count_true(s) == s.len(),
    decreases s.len(),
{
    if s.len() > 0 {
        assert forall|i: int| 0 <= i < s.drop_last().len() implies s.drop_last()[i] by {
            assert(s.drop_last()[i] == s[i]);
        }
        lemma_count_all_true(s.drop_last());
    }
}

/// Membership scan over a vector of column indices.
pub fn contains_col(v: &Vec<usize>, x: usize) -> (r: bool)
    ensures
        r == v@.contains(x),
{
    let mut k: usize = 0;
    while k < v.len()
        invariant
            k <= v@.len(),
            forall|t: int| 0 <= t < k ==> v@[t] != x,
        decreases v@.len() - k,
    {
        if v[k] == x {
            return true;
        }
        k += 1;
    }
    false
}

/// Index of the first occurrence of `x` in `v`, if any.
pub fn first_position(v: &Vec<usize>, x: usize) -> (r: Option<usize>)
    ensures
        match r {
            Some(i) => i < v@.len() && v@[i as int] == x && forall|t: int| 0 <= t < i ==> v@[t] != x,
            None => !v@.contains(x),
        },
{
    let mut k: usize = 0;
    while k < v.len()
        invariant
            k <= v@.len(),
            forall|t: int| 0 <= t < k ==> v@[t] != x,
        decreases v@.len() - k,
    {
        if v[k] == x {
            return Some(k);
        }
        k += 1;
    }
    None
}

/// A fresh availability mask of length `n`, every entry set to `v`.
pub fn fill_bool(n: usize, v: bool) -> (r: Vec<bool>)
    ensures
        r@.len() == n,
        forall|i: int| 0 <= i < n ==> r@[i] == v,
{
    let mut out: Vec<bool> = Vec::new();
    let mut k: usize = 0;
    while k < n
        invariant
            k <= n,
            out@.len() == k,
            forall|i: int| 0 <= i < k ==> out@[i] == v,
        decreases n - k,
    {
        out.push(v);
        k += 1;
    }
    out
}

} // verus!
