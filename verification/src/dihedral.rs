//! The dihedral group of the square board acting on placements, the
//! lexicographic order on placements, and the canonical-representative test
//! (lexicographically least in its orbit) that the symmetry-reduced
//! enumerators filter by.
//!
//! A complete placement assigns one column per row, each column once, so it
//! is a permutation of the columns. The eight symmetries of the square act
//! on such placements: transposing swaps the roles of rows and columns (the
//! inverse permutation), and the remaining reflections flip the row order or
//! mirror the columns. Every symmetry is a transposition bit followed by
//! those two flip bits.
use crate::geometry::{is_col_permutation, queen_conflict, queen_safe};
use vstd::pervasive::VecAdditionalExecFns;
use vstd::prelude::*;

verus! {

/// The transposed placement: entry `c` is the row whose queen stands in
/// column `c`.
pub open spec fn invert(p: Seq<usize>) -> Seq<usize> {
    Seq::new(
        p.len(),
        |c: int| ((choose|r: int| 0 <= r < p.len() && p[r] == c as usize) as usize),
    )
}

/// One flip layer: reverse the row order when `rbit` is set, mirror the
/// columns when `cbit` is set.
pub open spec fn k4_apply(rbit: int, cbit: int, n: int, q: Seq<usize>) -> Seq<usize> {
    Seq::new(
        q.len(),
        |i: int|
            {
                let j = if rbit == 1 {
                    q.len() - 1 - i
                } else {
                    i
                };
                let v = q[j] as int;
                ((if cbit == 1 {
                    n - 1 - v
                } else {
                    v
                }) as usize)
            },
    )
}

/// Transform `t` of the eight dihedral transforms applied to placement `p`:
/// transforms 4 to 7 transpose first, the low two bits then flip the row
/// order and mirror the columns.
pub open spec fn sym_apply(t: int, n: int, p: Seq<usize>) -> Seq<usize> {
    k4_apply(
        (t / 2) % 2,
        t % 2,
        n,
        if t >= 4 {
            invert(p)
        } else {
            p
        },
    )
}

/// `a` comes strictly before `b` in lexicographic order: they agree up to
/// some position at which `a` is smaller.
pub open spec fn lex_lt(a: Seq<usize>, b: Seq<usize>) -> bool {
    exists|k: int|
        0 <= k < a.len() && k < b.len() && a[k] < b[k] && (forall|j: int|
            0 <= j < k ==> a[j] == b[j])
}

pub open spec fn lex_le(a: Seq<usize>, b: Seq<usize>) -> bool {
    a == b || lex_lt(a, b)
}

/// `p` is the lexicographically least placement in its own dihedral orbit:
/// the representative its equivalence class is counted by.
pub open spec fn canonical(n: int, p: Seq<usize>) -> bool {
    forall|t: int| 0 <= t < 8 ==> lex_le(p, #[trigger] sym_apply(t, n, p))
}

/// Where each column of a permutation sits: the transposed placement points
/// back to the unique row of that column, and composing the two is the
/// identity.
pub proof fn lemma_invert_points(p: Seq<usize>, n: int)
    requires
        n <= usize::MAX,
        is_col_permutation(p, n),
    ensures
        invert(p).len() == n,
        forall|c: int|
            0 <= c < n ==> (#[trigger] invert(p)[c]) < n && p[invert(p)[c] as int] == c as usize,
        forall|r: int| 0 <= r < n ==> #[trigger] invert(p)[p[r] as int] == r as usize,
{
    assert forall|c: int|
        0 <= c < n implies (#[trigger] invert(p)[c]) < n && p[invert(p)[c] as int]
        == c as usize by {
        assert(p.contains(c as usize));
        assert(exists|r: int| 0 <= r < p.len() && p[r] == c as usize);
        let r0 = choose|r: int| 0 <= r < p.len() && p[r] == c as usize;
        assert(invert(p)[c] == r0 as usize);
    }
    assert forall|r: int| 0 <= r < n implies #[trigger] invert(p)[p[r] as int] == r as usize by {
        let c = p[r] as int;
        assert(0 <= r < p.len() && p[r] == c as usize);
        let r0 = choose|rr: int| 0 <= rr < p.len() && p[rr] == c as usize;
        if r0 != r {
            if r0 < r {
                assert(p[r0] != p[r]);
            } else {
                assert(p[r] != p[r0]);
            }
        }
        assert(invert(p)[c] == r0 as usize);
    }
}

/// Transposing a permutation yields a permutation.
pub proof fn lemma_invert_perm(p: Seq<usize>, n: int)
    requires
        n <= usize::MAX,
        is_col_permutation(p, n),
    ensures
        is_col_permutation(invert(p), n),
{
    lemma_invert_points(p, n);
    let q = invert(p);
    assert forall|i: int, j: int| 0 <= i < j < q.len() implies q[i] != q[j] by {
        if q[i] == q[j] {
            assert(p[q[i] as int] == i as usize);
            assert(p[q[j] as int] == j as usize);
        }
    }
    assert forall|c: int| 0 <= c < n implies #[trigger] q.contains(c as usize) by {
        assert(p[c] < n);
        assert(q[p[c] as int] == c as usize);
    }
}

/// Transposing twice restores the placement.
pub proof fn lemma_invert_invert(p: Seq<usize>, n: int)
    requires
        n <= usize::MAX,
        is_col_permutation(p, n),
    ensures
        invert(invert(p)) == p,
{
    lemma_invert_points(p, n);
    lemma_invert_perm(p, n);
    let q = invert(p);
    lemma_invert_points(q, n);
    assert forall|r: int| 0 <= r < n implies invert(q)[r] == p[r] by {
        assert(p[r] < n);
        assert(q[p[r] as int] == r as usize);
        let c0 = choose|c: int| 0 <= c < q.len() && q[c] == r as usize;
        assert(invert(q)[r] == c0 as usize);
        if c0 != p[r] as int {
            if c0 < p[r] as int {
                assert(q[c0] != q[p[r] as int]);
            } else {
                assert(q[p[r] as int] != q[c0]);
            }
        }
    }
    assert(invert(q) =~= p);
}

/// A flip layer maps permutations to permutations.
pub proof fn lemma_k4_perm(rbit: int, cbit: int, n: int, q: Seq<usize>)
    requires
        0 <= rbit <= 1,
        0 <= cbit <= 1,
        n <= usize::MAX,
        is_col_permutation(q, n),
    ensures
        is_col_permutation(k4_apply(rbit, cbit, n, q), n),
{
    let y = k4_apply(rbit, cbit, n, q);
    assert forall|i: int| 0 <= i < n implies (#[trigger] y[i]) < n by {
        let j = if rbit == 1 {
            n - 1 - i
        } else {
            i
        };
        assert(q[j] < n);
    }
    assert forall|i: int, j: int| 0 <= i < j < n implies y[i] != y[j] by {
        let fi = if rbit == 1 {
            n - 1 - i
        } else {
            i
        };
        let fj = if rbit == 1 {
            n - 1 - j
        } else {
            j
        };
        if y[i] == y[j] {
            assert(q[fi] == q[fj]);
            if fi < fj {
                assert(q[fi] != q[fj]);
            } else {
                assert(q[fj] != q[fi]);
            }
        }
    }
    assert forall|c: int| 0 <= c < n implies #[trigger] y.contains(c as usize) by {
        let u = if cbit == 1 {
            n - 1 - c
        } else {
            c
        };
        assert(q.contains(u as usize));
        let w = choose|w: int| 0 <= w < q.len() && q[w] == u as usize;
        let i0 = if rbit == 1 {
            n - 1 - w
        } else {
            w
        };
        assert(0 <= i0 < n);
        assert(y[i0] == c as usize);
    }
}

/// Two flip layers compose by adding their bits modulo two.
pub proof fn lemma_k4_compose(r1: int, c1: int, r2: int, c2: int, n: int, q: Seq<usize>)
    requires
        0 <= r1 <= 1,
        0 <= c1 <= 1,
        0 <= r2 <= 1,
        0 <= c2 <= 1,
        n <= usize::MAX,
        q.len() == n,
        forall|i: int| 0 <= i < n ==> (#[trigger] q[i]) < n,
    ensures
        k4_apply(r1, c1, n, k4_apply(r2, c2, n, q)) == k4_apply(
            (r1 + r2) % 2,
            (c1 + c2) % 2,
            n,
            q,
        ),
{
    let inner = k4_apply(r2, c2, n, q);
    let lhs = k4_apply(r1, c1, n, inner);
    let rhs = k4_apply((r1 + r2) % 2, (c1 + c2) % 2, n, q);
    assert forall|i: int| 0 <= i < n implies lhs[i] == rhs[i] by {
        let j1 = if r1 == 1 {
            n - 1 - i
        } else {
            i
        };
        let j2 = if r2 == 1 {
            n - 1 - j1
        } else {
            j1
        };
        assert(0 <= j1 < n && 0 <= j2 < n);
        assert(q[j2] < n);
        assert(inner[j1] as int == if c2 == 1 {
            n - 1 - q[j2]
        } else {
            q[j2] as int
        });
    }
    assert(lhs =~= rhs);
}

/// Transposing after a flip layer swaps the layer's two bits.
pub proof fn lemma_invert_k4(rbit: int, cbit: int, n: int, q: Seq<usize>)
    requires
        0 <= rbit <= 1,
        0 <= cbit <= 1,
        n <= usize::MAX,
        is_col_permutation(q, n),
    ensures
        invert(k4_apply(rbit, cbit, n, q)) == k4_apply(cbit, rbit, n, invert(q)),
{
    lemma_invert_points(q, n);
    lemma_invert_perm(q, n);
    let y = k4_apply(rbit, cbit, n, q);
    lemma_k4_perm(rbit, cbit, n, q);
    let qi = invert(q);
    let lhs = invert(y);
    let rhs = k4_apply(cbit, rbit, n, qi);
    assert forall|v: int| 0 <= v < n implies lhs[v] == rhs[v] by {
        let u = if cbit == 1 {
            n - 1 - v
        } else {
            v
        };
        assert(0 <= u < n);
        let w = qi[u] as int;
        assert(q[w] == u as usize && 0 <= w < n);
        let i0 = if rbit == 1 {
            n - 1 - w
        } else {
            w
        };
        assert(rhs[v] as int == i0);
        assert(y[i0] == v as usize);
        assert(0 <= i0 < y.len() && y[i0] == v as usize);
        let ic = choose|i: int| 0 <= i < y.len() && y[i] == v as usize;
        assert(lhs[v] == ic as usize);
        if ic != i0 {
            if ic < i0 {
                assert(y[ic] != y[i0]);
            } else {
                assert(y[i0] != y[ic]);
            }
        }
    }
    assert(lhs =~= rhs);
}

/// Transform 0 is the identity.
pub proof fn lemma_sym_apply_id(n: int, p: Seq<usize>)
    ensures
        sym_apply(0, n, p) == p,
{
    assert(k4_apply(0, 0, n, p) =~= p);
}

/// Every dihedral transform maps permutations to permutations.
pub proof fn lemma_sym_apply_perm(t: int, n: int, p: Seq<usize>)
    requires
        0 <= t < 8,
        n <= usize::MAX,
        is_col_permutation(p, n),
    ensures
        is_col_permutation(sym_apply(t, n, p), n),
{
    assert(t == 0 || t == 1 || t == 2 || t == 3 || t == 4 || t == 5 || t == 6 || t == 7);
    if t >= 4 {
        lemma_invert_perm(p, n);
        lemma_k4_perm((t / 2) % 2, t % 2, n, invert(p));
    } else {
        lemma_k4_perm((t / 2) % 2, t % 2, n, p);
    }
}

/// A flip layer maps attack-free placements to attack-free placements: it
/// preserves column distinctness and swaps the two diagonal directions.
proof fn lemma_k4_safe(rbit: int, cbit: int, n: int, q: Seq<usize>)
    requires
        0 <= rbit <= 1,
        0 <= cbit <= 1,
        n <= usize::MAX,
        q.len() == n,
        forall|i: int| 0 <= i < n ==> (#[trigger] q[i]) < n,
        queen_safe(q),
    ensures
        queen_safe(k4_apply(rbit, cbit, n, q)),
{
    let y = k4_apply(rbit, cbit, n, q);
    assert forall|i: int, j: int| 0 <= i < j < y.len() implies !queen_conflict(
        i,
        y[i] as int,
        j,
        y[j] as int,
    ) by {
        let fi = if rbit == 1 {
            n - 1 - i
        } else {
            i
        };
        let fj = if rbit == 1 {
            n - 1 - j
        } else {
            j
        };
        assert(0 <= fi < n && 0 <= fj < n);
        if fi < fj {
            assert(!queen_conflict(fi, q[fi] as int, fj, q[fj] as int));
        } else {
            assert(!queen_conflict(fj, q[fj] as int, fi, q[fi] as int));
        }
        assert(y[i] as int == if cbit == 1 {
            n - 1 - q[fi]
        } else {
            q[fi] as int
        });
        assert(y[j] as int == if cbit == 1 {
            n - 1 - q[fj]
        } else {
            q[fj] as int
        });
    }
}

/// Transposing an attack-free permutation stays attack-free: the two
/// diagonal conditions are symmetric in rows and columns, and two queens
/// never share a row.
proof fn lemma_invert_safe(p: Seq<usize>, n: int)
    requires
        n <= usize::MAX,
        is_col_permutation(p, n),
        queen_safe(p),
    ensures
        queen_safe(invert(p)),
{
    lemma_invert_points(p, n);
    let q = invert(p);
    assert forall|c1: int, c2: int| 0 <= c1 < c2 < q.len() implies !queen_conflict(
        c1,
        q[c1] as int,
        c2,
        q[c2] as int,
    ) by {
        let r1 = q[c1] as int;
        let r2 = q[c2] as int;
        assert(p[r1] == c1 as usize && p[r2] == c2 as usize);
        assert(r1 != r2);
        if r1 < r2 {
            assert(!queen_conflict(r1, p[r1] as int, r2, p[r2] as int));
        } else {
            assert(!queen_conflict(r2, p[r2] as int, r1, p[r1] as int));
        }
    }
}

/// Every dihedral transform maps complete attack-free placements to
/// complete attack-free placements.
pub proof fn lemma_sym_apply_safe(t: int, n: int, p: Seq<usize>)
    requires
        0 <= t < 8,
        n <= usize::MAX,
        is_col_permutation(p, n),
        queen_safe(p),
    ensures
        is_col_permutation(sym_apply(t, n, p), n),
        queen_safe(sym_apply(t, n, p)),
{
    lemma_sym_apply_perm(t, n, p);
    assert(t == 0 || t == 1 || t == 2 || t == 3 || t == 4 || t == 5 || t == 6 || t == 7);
    if t >= 4 {
        lemma_invert_perm(p, n);
        lemma_invert_safe(p, n);
        lemma_k4_safe((t / 2) % 2, t % 2, n, invert(p));
    } else {
        lemma_k4_safe((t / 2) % 2, t % 2, n, p);
    }
}

/// The index of the transform obtained by applying `t` and then `u`:
/// transposition bits add, and a transposition in `u` swaps the flip bits
/// it passes over.
pub open spec fn sym_comp(u: int, t: int) -> int {
    let eu = u / 4;
    let ru = (u / 2) % 2;
    let cu = u % 2;
    let et = t / 4;
    let rt = (t / 2) % 2;
    let ct = t % 2;
    if eu == 0 {
        4 * et + 2 * ((ru + rt) % 2) + ((cu + ct) % 2)
    } else {
        4 * ((1 + et) % 2) + 2 * ((ru + ct) % 2) + ((cu + rt) % 2)
    }
}

/// The dihedral transforms are closed under composition: applying `t` and
/// then `u` is the single transform `sym_comp(u, t)`.
#[verifier::rlimit(100)]
pub proof fn lemma_sym_comp(u: int, t: int, n: int, p: Seq<usize>)
    requires
        0 <= u < 8,
        0 <= t < 8,
        n <= usize::MAX,
        is_col_permutation(p, n),
    ensures
        0 <= sym_comp(u, t) < 8,
        sym_apply(u, n, sym_apply(t, n, p)) == sym_apply(sym_comp(u, t), n, p),
{
    assert(u == 0 || u == 1 || u == 2 || u == 3 || u == 4 || u == 5 || u == 6 || u == 7);
    assert(t == 0 || t == 1 || t == 2 || t == 3 || t == 4 || t == 5 || t == 6 || t == 7);
    let rt = (t / 2) % 2;
    let ct = t % 2;
    let ru = (u / 2) % 2;
    let cu = u % 2;
    let base = if t >= 4 {
        invert(p)
    } else {
        p
    };
    if t >= 4 {
        lemma_invert_perm(p, n);
    }
    let q = sym_apply(t, n, p);
    assert(q == k4_apply(rt, ct, n, base));
    lemma_k4_perm(rt, ct, n, base);
    if u < 4 {
        lemma_k4_compose(ru, cu, rt, ct, n, base);
        assert(sym_apply(u, n, q) == k4_apply((ru + rt) % 2, (cu + ct) % 2, n, base));
    } else {
        lemma_invert_k4(rt, ct, n, base);
        if t >= 4 {
            lemma_invert_invert(p, n);
            assert(invert(base) == p);
        }
        let base2 = if t >= 4 {
            p
        } else {
            invert(p)
        };
        assert(invert(q) == k4_apply(ct, rt, n, base2));
        if t < 4 {
            lemma_invert_perm(p, n);
        }
        lemma_k4_compose(ru, cu, ct, rt, n, base2);
        assert(sym_apply(u, n, q) == k4_apply((ru + ct) % 2, (cu + rt) % 2, n, base2));
    }
}

/// The index of the transform that undoes `t`: the pure flips are their own
/// inverses; a transposed transform is undone by transposing with the flip
/// bits swapped.
pub open spec fn sym_inv(t: int) -> int {
    if t < 4 {
        t
    } else {
        4 + 2 * (t % 2) + ((t / 2) % 2)
    }
}

/// Applying a transform and then its inverse restores the placement.
pub proof fn lemma_sym_inverse(t: int, n: int, p: Seq<usize>)
    requires
        0 <= t < 8,
        n <= usize::MAX,
        is_col_permutation(p, n),
    ensures
        0 <= sym_inv(t) < 8,
        sym_apply(sym_inv(t), n, sym_apply(t, n, p)) == p,
{
    assert(t == 0 || t == 1 || t == 2 || t == 3 || t == 4 || t == 5 || t == 6 || t == 7);
    lemma_sym_comp(sym_inv(t), t, n, p);
    assert(sym_comp(sym_inv(t), t) == 0);
    lemma_sym_apply_id(n, p);
}

/// Sequences that differ somewhere differ first somewhere: below the first
/// difference they agree.
proof fn lemma_lex_first_diff(a: Seq<usize>, b: Seq<usize>, k: int)
    requires
        0 <= k < a.len(),
        k < b.len(),
        a[k] != b[k],
    ensures
        exists|k0: int|
            0 <= k0 < a.len() && k0 < b.len() && a[k0] != b[k0] && (forall|j: int|
                0 <= j < k0 ==> a[j] == b[j]),
    decreases k,
{
    if forall|j: int| 0 <= j < k ==> a[j] == b[j] {
        assert(0 <= k < a.len() && k < b.len() && a[k] != b[k] && (forall|j: int|
            0 <= j < k ==> a[j] == b[j]));
    } else {
        let j = choose|j: int| 0 <= j < k && a[j] != b[j];
        lemma_lex_first_diff(a, b, j);
    }
}

/// The lexicographic order is total on equal-length sequences.
pub proof fn lemma_lex_total(a: Seq<usize>, b: Seq<usize>)
    requires
        a.len() == b.len(),
    ensures
        lex_le(a, b) || lex_lt(b, a),
{
    if a != b {
        assert(exists|k: int| 0 <= k < a.len() && a[k] != b[k]) by {
            if forall|k: int| 0 <= k < a.len() ==> a[k] == b[k] {
                assert(a =~= b);
            }
        }
        let k = choose|k: int| 0 <= k < a.len() && a[k] != b[k];
        lemma_lex_first_diff(a, b, k);
        let k0 = choose|k0: int|
            0 <= k0 < a.len() && k0 < b.len() && a[k0] != b[k0] && (forall|j: int|
                0 <= j < k0 ==> a[j] == b[j]);
        if a[k0] < b[k0] {
            assert(lex_lt(a, b));
        } else {
            assert(0 <= k0 < b.len() && k0 < a.len() && b[k0] < a[k0] && (forall|j: int|
                0 <= j < k0 ==> b[j] == a[j]));
            assert(lex_lt(b, a));
        }
    }
}

/// The lexicographic order is antisymmetric.
pub proof fn lemma_lex_antisym(a: Seq<usize>, b: Seq<usize>)
    requires
        lex_le(a, b),
        lex_le(b, a),
    ensures
        a == b,
{
    if a != b {
        let k1 = choose|k: int|
            0 <= k < a.len() && k < b.len() && a[k] < b[k] && (forall|j: int|
                0 <= j < k ==> a[j] == b[j]);
        let k2 = choose|k: int|
            0 <= k < b.len() && k < a.len() && b[k] < a[k] && (forall|j: int|
                0 <= j < k ==> b[j] == a[j]);
        if k1 < k2 {
            assert(b[k1] == a[k1]);
        } else if k2 < k1 {
            assert(a[k2] == b[k2]);
        }
        assert(false);
    }
}

/// The lexicographic order is transitive.
pub proof fn lemma_lex_trans(a: Seq<usize>, b: Seq<usize>, c: Seq<usize>)
    requires
        lex_le(a, b),
        lex_le(b, c),
        a.len() == b.len(),
        b.len() == c.len(),
    ensures
        lex_le(a, c),
{
    if a != b && b != c {
        let k1 = choose|k: int|
            0 <= k < a.len() && k < b.len() && a[k] < b[k] && (forall|j: int|
                0 <= j < k ==> a[j] == b[j]);
        let k2 = choose|k: int|
            0 <= k < b.len() && k < c.len() && b[k] < c[k] && (forall|j: int|
                0 <= j < k ==> b[j] == c[j]);
        if k1 < k2 {
            assert(forall|j: int| 0 <= j < k1 ==> a[j] == c[j]);
            assert(b[k1] == c[k1]);
            assert(0 <= k1 < a.len() && k1 < c.len() && a[k1] < c[k1] && (forall|j: int|
                0 <= j < k1 ==> a[j] == c[j]));
            assert(lex_lt(a, c));
        } else if k2 < k1 {
            assert(forall|j: int| 0 <= j < k2 ==> a[j] == c[j]);
            assert(a[k2] == b[k2]);
            assert(0 <= k2 < a.len() && k2 < c.len() && a[k2] < c[k2] && (forall|j: int|
                0 <= j < k2 ==> a[j] == c[j]));
            assert(lex_lt(a, c));
        } else {
            assert(0 <= k1 < a.len() && k1 < c.len() && a[k1] < c[k1] && (forall|j: int|
                0 <= j < k1 ==> a[j] == c[j]));
            assert(lex_lt(a, c));
        }
    }
}

/// The transform whose image of `p` comes lexicographically first among the
/// transforms below `m`.
proof fn lemma_min_image_upto(n: int, p: Seq<usize>, m: int) -> (t: int)
    requires
        n <= usize::MAX,
        is_col_permutation(p, n),
        1 <= m <= 8,
    ensures
        0 <= t < m,
        forall|u: int| 0 <= u < m ==> lex_le(sym_apply(t, n, p), #[trigger] sym_apply(u, n, p)),
    decreases m,
{
    if m == 1 {
        lemma_sym_apply_id(n, p);
        0
    } else {
        let tp = lemma_min_image_upto(n, p, m - 1);
        lemma_sym_apply_perm(tp, n, p);
        lemma_sym_apply_perm(m - 1, n, p);
        lemma_lex_total(sym_apply(tp, n, p), sym_apply(m - 1, n, p));
        if lex_le(sym_apply(tp, n, p), sym_apply(m - 1, n, p)) {
            tp
        } else {
            assert(lex_lt(sym_apply(m - 1, n, p), sym_apply(tp, n, p)));
            assert forall|u: int| 0 <= u < m implies lex_le(
                sym_apply(m - 1, n, p),
                #[trigger] sym_apply(u, n, p),
            ) by {
                if u < m - 1 {
                    lemma_sym_apply_perm(u, n, p);
                    lemma_lex_trans(sym_apply(m - 1, n, p), sym_apply(tp, n, p), sym_apply(u, n, p));
                }
            }
            m - 1
        }
    }
}

/// Law: every complete attack-free placement is a dihedral image of a
/// canonical one — the orbits of the canonical placements cover the whole
/// solution set. The returned transform maps the placement onto the
/// canonical member of its orbit, and its inverse maps it back.
pub proof fn lemma_orbit_has_canonical(n: int, p: Seq<usize>) -> (t: int)
    requires
        n <= usize::MAX,
        is_col_permutation(p, n),
        queen_safe(p),
    ensures
        0 <= t < 8,
        is_col_permutation(sym_apply(t, n, p), n),
        queen_safe(sym_apply(t, n, p)),
        canonical(n, sym_apply(t, n, p)),
        0 <= sym_inv(t) < 8,
        p == sym_apply(sym_inv(t), n, sym_apply(t, n, p)),
{
    let t = lemma_min_image_upto(n, p, 8);
    lemma_sym_apply_safe(t, n, p);
    let q = sym_apply(t, n, p);
    assert forall|u: int| 0 <= u < 8 implies lex_le(q, #[trigger] sym_apply(u, n, q)) by {
        lemma_sym_comp(u, t, n, p);
        assert(sym_apply(u, n, q) == sym_apply(sym_comp(u, t), n, p));
        assert(lex_le(q, sym_apply(sym_comp(u, t), n, p)));
    }
    lemma_sym_inverse(t, n, p);
    t
}

/// Law: no two distinct canonical placements lie in the same dihedral
/// orbit — the reduced enumeration counts each equivalence class once.
pub proof fn lemma_canonical_unique(n: int, p: Seq<usize>, q: Seq<usize>, t: int)
    requires
        n <= usize::MAX,
        is_col_permutation(p, n),
        is_col_permutation(q, n),
        canonical(n, p),
        canonical(n, q),
        0 <= t < 8,
        q == sym_apply(t, n, p),
    ensures
        p == q,
{
    assert(lex_le(p, q));
    lemma_sym_inverse(t, n, p);
    assert(sym_apply(sym_inv(t), n, q) == p);
    assert(lex_le(q, p));
    lemma_lex_antisym(p, q);
}

/// A copy of a placement vector.
fn copy_cols(p: &Vec<usize>) -> (r: Vec<usize>)
    ensures
        r@ == p@,
{
    let mut out: Vec<usize> = Vec::new();
    let mut k: usize = 0;
    while k < p.len()
        invariant
            k <= p@.len(),
            out@ == p@.subrange(0, k as int),
        decreases p@.len() - k,
    {
        out.push(p[k]);
        proof {
            assert(out@ =~= p@.subrange(0, k + 1));
        }
        k += 1;
    }
    proof {
        assert(out@ =~= p@);
    }
    out
}

/// The transposed placement, computed by writing each row's index at its
/// column.
fn invert_exec(n: usize, p: &Vec<usize>) -> (r: Vec<usize>)
    requires
        is_col_permutation(p@, n as int),
    ensures
        r@ == invert(p@),
{
    proof {
        lemma_invert_points(p@, n as int);
    }
    let mut out: Vec<usize> = Vec::new();
    let mut k: usize = 0;
    while k < n
        invariant
            k <= n,
            out@.len() == k,
        decreases n - k,
    {
        out.push(0);
        k += 1;
    }
    let mut r: usize = 0;
    while r < n
        invariant
            r <= n,
            out@.len() == n,
            is_col_permutation(p@, n as int),
            forall|w: int| 0 <= w < r ==> out@[p@[w] as int] == w as usize,
        decreases n - r,
    {
        let c = p[r];
        out.set(c, r);
        proof {
            assert forall|w: int| 0 <= w < r + 1 implies out@[p@[w] as int] == w as usize by {
                if w < r {
                    assert(p@[w] != p@[r as int]);
                }
            }
        }
        r += 1;
    }
    proof {
        assert forall|c: int| 0 <= c < n implies out@[c] == invert(p@)[c] by {
            let r0 = invert(p@)[c] as int;
            assert(p@[r0] == c as usize);
            assert(out@[p@[r0] as int] == r0 as usize);
        }
        assert(out@ =~= invert(p@));
    }
    out
}

/// Transform `t` applied to a placement, exactly as `sym_apply` states it.
fn apply_sym(t: usize, n: usize, p: &Vec<usize>) -> (r: Vec<usize>)
    requires
        t < 8,
        is_col_permutation(p@, n as int),
    ensures
        r@ == sym_apply(t as int, n as int, p@),
{
    let base: Vec<usize> = if t >= 4 {
        invert_exec(n, p)
    } else {
        copy_cols(p)
    };
    proof {
        if t >= 4 {
            lemma_invert_perm(p@, n as int);
        }
        assert(is_col_permutation(base@, n as int));
    }
    let rbit: usize = (t / 2) % 2;
    let cbit: usize = t % 2;
    let mut out: Vec<usize> = Vec::new();
    let mut i: usize = 0;
    while i < n
        invariant
            i <= n,
            t < 8,
            rbit as int == (t as int / 2) % 2,
            cbit as int == t as int % 2,
            out@.len() == i,
            is_col_permutation(base@, n as int),
            forall|w: int|
                0 <= w < i ==> out@[w] == k4_apply(rbit as int, cbit as int, n as int, base@)[w],
        decreases n - i,
    {
        let j = if rbit == 1 {
            n - 1 - i
        } else {
            i
        };
        let v = base[j];
        let val = if cbit == 1 {
            proof {
                assert(base@[j as int] < n);
            }
            n - 1 - v
        } else {
            v
        };
        out.push(val);
        i += 1;
    }
    proof {
        assert(out@ =~= k4_apply(rbit as int, cbit as int, n as int, base@));
        assert(base@ == if t as int >= 4 {
            invert(p@)
        } else {
            p@
        });
    }
    out
}

/// Lexicographic comparison of two equal-length placements.
fn lex_le_exec(a: &Vec<usize>, b: &Vec<usize>) -> (r: bool)
    requires
        a@.len() == b@.len(),
    ensures
        r == lex_le(a@, b@),
{
    let mut k: usize = 0;
    while k < a.len()
        invariant
            k <= a@.len(),
            a@.len() == b@.len(),
            forall|j: int| 0 <= j < k ==> a@[j] == b@[j],
        decreases a@.len() - k,
    {
        let x = a[k];
        let y = b[k];
        if x < y {
            proof {
                assert(0 <= k < a@.len() && (k as int) < b@.len() && a@[k as int] < b@[k as int]
                    && (forall|j: int| 0 <= j < k ==> a@[j] == b@[j]));
                assert(lex_lt(a@, b@));
            }
            return true;
        }
        if x > y {
            proof {
                assert(a@[k as int] != b@[k as int]);
                assert(a@ != b@);
                if lex_lt(a@, b@) {
                    let w = choose|w: int|
                        0 <= w < a@.len() && w < b@.len() && a@[w] < b@[w] && (forall|j: int|
                            0 <= j < w ==> a@[j] == b@[j]);
                    if w < k {
                        assert(a@[w] == b@[w]);
                    } else {
                        assert(a@[k as int] == b@[k as int]);
                    }
                }
            }
            return false;
        }
        k += 1;
    }
    proof {
        assert(a@ =~= b@);
    }
    true
}

/// Does `p` come lexicographically first in its own dihedral orbit? This is
/// the test the symmetry-reduced enumerators keep a placement by.
pub fn is_canonical(n: usize, p: &Vec<usize>) -> (r: bool)
    requires
        is_col_permutation(p@, n as int),
    ensures
        r == canonical(n as int, p@),
{
    let mut t: usize = 0;
    while t < 8
        invariant
            t <= 8,
            is_col_permutation(p@, n as int),
            forall|u: int| 0 <= u < t ==> lex_le(p@, #[trigger] sym_apply(u, n as int, p@)),
        decreases 8 - t,
    {
        let img = apply_sym(t, n, p);
        proof {
            lemma_sym_apply_perm(t as int, n as int, p@);
        }
        if !lex_le_exec(p, &img) {
            proof {
                assert(!lex_le(p@, sym_apply(t as int, n as int, p@)));
            }
            return false;
        }
        t += 1;
    }
    true
}

} // verus!
