//! A layer-by-layer n-queens solver: starting from the empty arrangement,
//! each row adds every safe column to every arrangement found so far, so the
//! final collection holds only complete, attack-free placements.
use crate::geometry::{queen_conflict, queen_safe};
use vstd::prelude::*;
use vstd::string::StringExecFns;

verus! {

#[derive(Clone, Copy, Debug, Eq, PartialEq, Hash)]
pub struct NQueens {
    pub side_length: usize,
}

#[derive(Clone, Debug, Eq, PartialEq)]
pub struct Solutions(pub Vec<Rows>);

#[derive(Clone, Debug, Eq, PartialEq)]
pub struct Rows(pub Vec<Column>);

#[derive(Clone, Copy, Debug, Eq, PartialEq)]
pub struct Column(pub usize);

#[derive(Clone, Copy, Debug, Eq, PartialEq)]
struct Row(pub usize);

/// The columns of an arrangement, one per row, as a plain sequence.
pub open spec fn cols_of(rows: Rows) -> Seq<usize> {
    rows.0@.map_values(|c: Column| c.0)
}

/// A partial arrangement of length `len` on a board of side `n`: in-range
/// columns, no two queens attacking.
pub open spec fn rows_ok(rows: Rows, n: int, len: int) -> bool {
    &&& cols_of(rows).len() == len
    &&& queen_safe(cols_of(rows))
    &&& forall|t: int| 0 <= t < len ==> (#[trigger] cols_of(rows)[t]) < n
}

/// `column` can be placed in `row` without attacking any queen of `rows`;
/// `row` must also differ from every occupied row index.
spec fn safe_against(s: Seq<usize>, row: int, col: int) -> bool {
    forall|j: int|
        0 <= j < s.len() ==> (col != s[j] && row != j && !queen_conflict(j, s[j] as int, row, col))
}

/// Some arrangement in `sols` is exactly `base` extended by column `c`.
spec fn extension_present(sols: Seq<Rows>, base: Seq<usize>, c: usize) -> bool {
    exists|k: int| 0 <= k < sols.len() && cols_of(#[trigger] sols[k]) == base.push(c)
}

/// `e` is some arrangement of `prev` extended by one column that was safe
/// against it in row `row`.
spec fn extends_some(prev: Seq<Rows>, e: Rows, row: int) -> bool {
    exists|p: int|
        0 <= p < prev.len() && cols_of(#[trigger] prev[p]) == cols_of(e).subrange(0, row)
            && safe_against(cols_of(prev[p]), row, cols_of(e)[row] as int)
}

/// Check that a row and column are safe to use against an existing
/// arrangement of queens: no shared row, column or diagonal.
fn is_safe(rows: &Rows, row: &Row, column: &Column) -> (r: bool)
    ensures
        r == safe_against(cols_of(*rows), row.0 as int, column.0 as int),
{
    let s = &rows.0;
    let col = column.0;
    let rw = row.0;
    let mut j: usize = 0;
    while j < s.len()
        invariant
            j <= s@.len(),
            col == column.0,
            rw == row.0,
            cols_of(*rows).len() == s@.len(),
            forall|t: int| 0 <= t < s@.len() ==> (#[trigger] cols_of(*rows)[t]) == s@[t].0,
            forall|t: int|
                0 <= t < j ==> (col != cols_of(*rows)[t] && rw != t && !queen_conflict(
                    t,
                    cols_of(*rows)[t] as int,
                    rw as int,
                    col as int,
                )),
        decreases s@.len() - j,
    {
        let sc = s[j].0;
        if col == sc || rw == j || (col as u128) + (rw as u128) == (sc as u128) + (j as u128) || (
        col as u128) + (j as u128) == (sc as u128) + (rw as u128) {
            proof {
                assert(cols_of(*rows)[j as int] == sc);
                assert(!(col as int != cols_of(*rows)[j as int] && rw as int != j as int
                    && !queen_conflict(
                    j as int,
                    cols_of(*rows)[j as int] as int,
                    rw as int,
                    col as int,
                )));
                assert(!safe_against(cols_of(*rows), rw as int, col as int));
                assert(!safe_against(cols_of(*rows), row.0 as int, column.0 as int));
            }
            return false;
        }
        j += 1;
    }
    true
}

impl NQueens {
    pub fn new(side_length: usize) -> (r: NQueens)
        ensures
            r.side_length == side_length,
    {
        NQueens { side_length }
    }

    /// All complete placements for this board: each has one in-range column
    /// per row and no two queens attack each other, every such placement is
    /// present, and none appears twice.
    pub fn solve(&self) -> (r: Solutions)
        ensures
            forall|k: int|
                0 <= k < r.0@.len() ==> rows_ok(
                    #[trigger] r.0@[k],
                    self.side_length as int,
                    self.side_length as int,
                ),
            forall|s: Seq<usize>|
                s.len() == self.side_length && (forall|t: int|
                    0 <= t < s.len() ==> (#[trigger] s[t]) < self.side_length) && #[trigger] queen_safe(
                    s,
                ) ==> exists|k: int| 0 <= k < r.0@.len() && cols_of(r.0@[k]) == s,
            forall|k1: int, k2: int|
                0 <= k1 < k2 < r.0@.len() ==> cols_of(r.0@[k1]) != cols_of(r.0@[k2]),
    {
        let ghost n = self.side_length as int;
        let mut acc = Solutions(Vec::new());
        let empty = Rows(Vec::new());
        proof {
            assert(cols_of(empty) =~= Seq::<usize>::empty());
        }
        acc.0.push(empty);
        proof {
            assert forall|s2: Seq<usize>|
                s2.len() == 0 implies exists|k: int|
                0 <= k < acc.0@.len() && cols_of(acc.0@[k]) == s2 by {
                assert(cols_of(acc.0@[0]) =~= s2);
            }
        }
        let mut row: usize = 0;
        while row < self.side_length
            invariant
                row <= self.side_length,
                n == self.side_length as int,
                forall|k: int|
                    0 <= k < acc.0@.len() ==> rows_ok(#[trigger] acc.0@[k], n, row as int),
                forall|s: Seq<usize>|
                    s.len() == row as int && (forall|t: int|
                        0 <= t < s.len() ==> (#[trigger] s[t]) < n) && #[trigger] queen_safe(s)
                        ==> exists|k: int| 0 <= k < acc.0@.len() && cols_of(acc.0@[k]) == s,
                forall|k1: int, k2: int|
                    0 <= k1 < k2 < acc.0@.len() ==> cols_of(acc.0@[k1]) != cols_of(acc.0@[k2]),
            decreases self.side_length - row,
        {
            let ghost prev = acc;
            acc = self.add_new_layer(&acc, &Row(row));
            proof {
                assert forall|s: Seq<usize>|
                    s.len() == row + 1 && (forall|t: int|
                        0 <= t < s.len() ==> (#[trigger] s[t]) < n) && #[trigger] queen_safe(s)
                        implies exists|k: int|
                    0 <= k < acc.0@.len() && cols_of(acc.0@[k]) == s by {
                    let sp = s.subrange(0, row as int);
                    assert(queen_safe(sp)) by {
                        assert forall|i: int, j: int| 0 <= i < j < sp.len() implies !queen_conflict(
                            i,
                            sp[i] as int,
                            j,
                            sp[j] as int,
                        ) by {
                            assert(sp[i] == s[i] && sp[j] == s[j]);
                            assert(!queen_conflict(i, s[i] as int, j, s[j] as int));
                        }
                    }
                    assert forall|t: int| 0 <= t < sp.len() implies (#[trigger] sp[t]) < n by {
                        assert(sp[t] == s[t]);
                    }
                    let p = choose|p: int| 0 <= p < prev.0@.len() && cols_of(prev.0@[p]) == sp;
                    let c = s[row as int];
                    assert(safe_against(sp, row as int, c as int)) by {
                        assert forall|j: int|
                            0 <= j < sp.len() implies (c as int != sp[j] && row as int != j
                            && !queen_conflict(j, sp[j] as int, row as int, c as int)) by {
                            assert(sp[j] == s[j]);
                            assert(!queen_conflict(j, s[j] as int, row as int, s[row as int] as int));
                        }
                    }
                    assert(c < n) by {
                        assert(s[row as int] < n);
                    }
                    assert(safe_against(cols_of(prev.0@[p]), row as int, c as int));
                    assert(extension_present(acc.0@, cols_of(prev.0@[p]), c));
                    let k = choose|k: int|
                        0 <= k < acc.0@.len() && cols_of(#[trigger] acc.0@[k]) == cols_of(
                        prev.0@[p]).push(c);
                    assert(cols_of(prev.0@[p]).push(c) =~= s);
                    assert(cols_of(acc.0@[k]) == s);
                }
            }
            row += 1;
        }
        proof {
            assert forall|s: Seq<usize>|
                s.len() == self.side_length && (forall|t: int|
                    0 <= t < s.len() ==> (#[trigger] s[t]) < self.side_length)
                    && #[trigger] queen_safe(s) implies exists|k: int|
                0 <= k < acc.0@.len() && cols_of(acc.0@[k]) == s by {
                assert(s.len() == row as int);
            }
        }
        acc
    }

    /// Extend every arrangement of `previous` by one more row, keeping each
    /// safe column choice as its own new arrangement: every safe extension
    /// appears, and no arrangement twice.
    #[verifier::rlimit(50)]
    fn add_new_layer(&self, previous: &Solutions, row: &Row) -> (r: Solutions)
        requires
            forall|k: int|
                0 <= k < previous.0@.len() ==> rows_ok(
                    #[trigger] previous.0@[k],
                    self.side_length as int,
                    row.0 as int,
                ),
            forall|p1: int, p2: int|
                0 <= p1 < p2 < previous.0@.len() ==> cols_of(previous.0@[p1]) != cols_of(
                    previous.0@[p2],
                ),
            row.0 < self.side_length,
        ensures
            forall|k: int|
                0 <= k < r.0@.len() ==> rows_ok(
                    #[trigger] r.0@[k],
                    self.side_length as int,
                    row.0 as int + 1,
                ),
            forall|p: int, c: usize|
                0 <= p < previous.0@.len() && c < self.side_length && safe_against(
                    cols_of(previous.0@[p]),
                    row.0 as int,
                    c as int,
                ) ==> #[trigger] extension_present(r.0@, cols_of(previous.0@[p]), c),
            forall|k1: int, k2: int|
                0 <= k1 < k2 < r.0@.len() ==> cols_of(r.0@[k1]) != cols_of(r.0@[k2]),
            forall|k: int|
                0 <= k < r.0@.len() ==> #[trigger] extends_some(
                    previous.0@,
                    r.0@[k],
                    row.0 as int,
                ),
    {
        let ghost pv = previous.0@;
        let ghost l = row.0 as int;
        let mut rows: Vec<Rows> = Vec::new();
        let mut k: usize = 0;
        while k < previous.0.len()
            invariant
                k <= pv.len(),
                pv == previous.0@,
                l == row.0 as int,
                row.0 < self.side_length,
                forall|t: int|
                    0 <= t < pv.len() ==> rows_ok(
                        #[trigger] pv[t],
                        self.side_length as int,
                        row.0 as int,
                    ),
                forall|p1: int, p2: int|
                    0 <= p1 < p2 < pv.len() ==> cols_of(pv[p1]) != cols_of(pv[p2]),
                forall|t: int|
                    0 <= t < rows@.len() ==> rows_ok(
                        #[trigger] rows@[t],
                        self.side_length as int,
                        row.0 as int + 1,
                    ) && extends_some(pv, rows@[t], l) && exists|p: int|
                        0 <= p < k && cols_of(rows@[t]).subrange(0, l) == cols_of(pv[p]),
                forall|p: int, c: usize|
                    0 <= p < k && c < self.side_length && safe_against(cols_of(pv[p]), l, c as int)
                        ==> #[trigger] extension_present(rows@, cols_of(pv[p]), c),
                forall|t1: int, t2: int|
                    0 <= t1 < t2 < rows@.len() ==> cols_of(rows@[t1]) != cols_of(rows@[t2]),
            decreases pv.len() - k,
        {
            let prev = &previous.0[k];
            let mut col_num: usize = 0;
            while col_num < self.side_length
                invariant
                    col_num <= self.side_length,
                    row.0 < self.side_length,
                    k < pv.len(),
                    pv == previous.0@,
                    l == row.0 as int,
                    rows_ok(pv[k as int], self.side_length as int, row.0 as int),
                    prev == &pv[k as int],
                    forall|t: int|
                        0 <= t < pv.len() ==> rows_ok(
                            #[trigger] pv[t],
                            self.side_length as int,
                            row.0 as int,
                        ),
                    forall|p1: int, p2: int|
                        0 <= p1 < p2 < pv.len() ==> cols_of(pv[p1]) != cols_of(pv[p2]),
                    forall|t: int|
                        0 <= t < rows@.len() ==> rows_ok(
                            #[trigger] rows@[t],
                            self.side_length as int,
                            row.0 as int + 1,
                        ) && extends_some(pv, rows@[t], l) && exists|p: int|
                            0 <= p < k + 1 && cols_of(rows@[t]).subrange(0, l) == cols_of(pv[p])
                                && (p < k || cols_of(rows@[t])[l] < col_num),
                    forall|p: int, c: usize|
                        0 <= p < k && c < self.side_length && safe_against(
                            cols_of(pv[p]),
                            l,
                            c as int,
                        ) ==> #[trigger] extension_present(rows@, cols_of(pv[p]), c),
                    forall|c: usize|
                        c < col_num && safe_against(cols_of(pv[k as int]), l, c as int)
                            ==> #[trigger] extension_present(rows@, cols_of(pv[k as int]), c),
                    forall|t1: int, t2: int|
                        0 <= t1 < t2 < rows@.len() ==> cols_of(rows@[t1]) != cols_of(rows@[t2]),
                decreases self.side_length - col_num,
            {
                let column = Column(col_num);
                let ghost before = rows@;
                let safe_now = is_safe(prev, row, &column);
                if safe_now {
                    let mut cloned_data: Vec<Column> = Vec::new();
                    let mut j: usize = 0;
                    while j < prev.0.len()
                        invariant
                            j <= prev.0@.len(),
                            prev == &previous.0@[k as int],
                            k < previous.0@.len(),
                            cloned_data@ == prev.0@.subrange(0, j as int),
                        decreases prev.0@.len() - j,
                    {
                        let c = prev.0[j];
                        cloned_data.push(c);
                        proof {
                            assert(cloned_data@ =~= prev.0@.subrange(0, j + 1));
                        }
                        j += 1;
                    }
                    proof {
                        assert(cloned_data@ =~= prev.0@);
                    }
                    cloned_data.push(column);
                    let next = Rows(cloned_data);
                    proof {
                        let s0 = cols_of(previous.0@[k as int]);
                        let s1 = cols_of(next);
                        assert(s1 =~= s0.push(col_num));
                        assert(safe_against(s0, row.0 as int, col_num as int));
                        assert(row.0 as int == s0.len());
                        assert forall|i: int, j2: int| 0 <= i < j2 < s1.len() implies !queen_conflict(
                            i,
                            s1[i] as int,
                            j2,
                            s1[j2] as int,
                        ) by {
                            if j2 < s0.len() {
                                assert(!queen_conflict(i, s0[i] as int, j2, s0[j2] as int));
                            } else {
                                assert(s1[j2] == col_num);
                                assert(s1[i] == s0[i]);
                                assert(!queen_conflict(i, s0[i] as int, s0.len() as int, col_num as int));
                            }
                        }
                        assert(rows_ok(next, self.side_length as int, row.0 as int + 1));
                        assert(cols_of(next).subrange(0, l) =~= cols_of(pv[k as int]));
                        assert(cols_of(next)[l] == col_num);
                    }
                    rows.push(next);
                }
                proof {
                    let pk = cols_of(pv[k as int]);
                    assert forall|t: int|
                        0 <= t < rows@.len() implies rows_ok(
                        #[trigger] rows@[t],
                        self.side_length as int,
                        row.0 as int + 1,
                    ) && extends_some(pv, rows@[t], l) && exists|p: int|
                        0 <= p < k + 1 && cols_of(rows@[t]).subrange(0, l) == cols_of(pv[p]) && (p
                            < k || cols_of(rows@[t])[l] < col_num + 1) by {
                        if t < before.len() {
                            let p = choose|p: int|
                                0 <= p < k + 1 && cols_of(before[t]).subrange(0, l) == cols_of(
                                pv[p]) && (p < k || cols_of(before[t])[l] < col_num);
                            assert(rows@[t] == before[t]);
                            assert(extends_some(pv, rows@[t], l));
                            assert(0 <= p < k + 1 && cols_of(rows@[t]).subrange(0, l) == cols_of(
                            pv[p]) && (p < k || cols_of(rows@[t])[l] < col_num + 1));
                        } else {
                            assert(cols_of(rows@[t])[l] == col_num);
                            assert(safe_against(cols_of(pv[k as int]), l, col_num as int));
                            assert(cols_of(pv[k as int]) == cols_of(rows@[t]).subrange(0, l));
                            assert(extends_some(pv, rows@[t], l));
                            assert(0 <= k < k + 1 && cols_of(rows@[t]).subrange(0, l) == cols_of(
                            pv[k as int]) && cols_of(rows@[t])[l] < col_num + 1);
                        }
                    }
                    assert forall|p: int, c: usize|
                        0 <= p < k && c < self.side_length && safe_against(
                            cols_of(pv[p]),
                            l,
                            c as int,
                        ) implies #[trigger] extension_present(rows@, cols_of(pv[p]), c) by {
                        assert(extension_present(before, cols_of(pv[p]), c));
                        let t = choose|t: int|
                            0 <= t < before.len() && cols_of(#[trigger] before[t]) == cols_of(
                            pv[p]).push(c);
                        assert(cols_of(rows@[t]) == cols_of(pv[p]).push(c));
                    }
                    assert forall|c: usize|
                        c < col_num + 1 && safe_against(pk, l, c as int)
                            implies #[trigger] extension_present(rows@, pk, c) by {
                        if c < col_num {
                            assert(extension_present(before, pk, c));
                            let t = choose|t: int|
                                0 <= t < before.len() && cols_of(#[trigger] before[t]) == pk.push(
                                c);
                            assert(cols_of(rows@[t]) == pk.push(c));
                        } else {
                            assert(safe_now);
                            assert(cols_of(rows@[rows@.len() - 1]) =~= pk.push(c));
                            assert(cols_of(rows@[rows@.len() - 1]) == pk.push(c));
                        }
                    }
                    assert forall|t1: int, t2: int|
                        0 <= t1 < t2 < rows@.len() implies cols_of(rows@[t1]) != cols_of(
                        rows@[t2]) by {
                        if t2 >= before.len() {
                            let p = choose|p: int|
                                0 <= p < k + 1 && cols_of(before[t1]).subrange(0, l) == cols_of(
                                pv[p]) && (p < k || cols_of(before[t1])[l] < col_num);
                            assert(cols_of(rows@[t2]).subrange(0, l) == pk);
                            assert(cols_of(rows@[t2])[l] == col_num);
                            if p < k {
                                assert(cols_of(pv[p]) != pk);
                                if cols_of(rows@[t1]) == cols_of(rows@[t2]) {
                                    assert(cols_of(rows@[t1]).subrange(0, l) == cols_of(
                                    rows@[t2]).subrange(0, l));
                                }
                            } else {
                                assert(cols_of(rows@[t1])[l] < col_num);
                            }
                        }
                    }
                }
                col_num += 1;
            }
            proof {
                assert forall|t: int|
                    0 <= t < rows@.len() implies rows_ok(
                    #[trigger] rows@[t],
                    self.side_length as int,
                    row.0 as int + 1,
                ) && extends_some(pv, rows@[t], l) && exists|p: int|
                    0 <= p < k + 1 && cols_of(rows@[t]).subrange(0, l) == cols_of(pv[p]) by {
                    let p = choose|p: int|
                        0 <= p < k + 1 && cols_of(rows@[t]).subrange(0, l) == cols_of(pv[p]) && (p
                            < k || cols_of(rows@[t])[l] < self.side_length);
                    assert(0 <= p < k + 1 && cols_of(rows@[t]).subrange(0, l) == cols_of(pv[p]));
                }
                assert forall|p: int, c: usize|
                    0 <= p < k + 1 && c < self.side_length && safe_against(
                        cols_of(pv[p]),
                        l,
                        c as int,
                    ) implies #[trigger] extension_present(rows@, cols_of(pv[p]), c) by {
                    if p == k {
                        assert(extension_present(rows@, cols_of(pv[k as int]), c));
                    }
                }
            }
            k += 1;
        }
        proof {
            assert forall|p: int, c: usize|
                0 <= p < previous.0@.len() && c < self.side_length && safe_against(
                    cols_of(previous.0@[p]),
                    row.0 as int,
                    c as int,
                ) implies #[trigger] extension_present(rows@, cols_of(previous.0@[p]), c) by {
                assert(extension_present(rows@, cols_of(pv[p]), c));
            }
            assert forall|k2: int|
                0 <= k2 < rows@.len() implies #[trigger] extends_some(
                previous.0@,
                rows@[k2],
                row.0 as int,
            ) by {
                assert(extends_some(pv, rows@[k2], l));
            }
        }
        Solutions(rows)
    }
}

/// One line of a rendered arrangement: full-width blanks, the piece mark at
/// the placed column of that row, and a terminating newline.
pub open spec fn wide_row_chars(cols: Seq<usize>, row: int) -> Seq<char> {
    Seq::new(
        (cols.len() + 1) as nat,
        |j: int|
            if j == cols.len() {
                '\n'
            } else if j == cols[row] {
                '\u{3007}'
            } else {
                '\u{ff3f}'
            },
    )
}

/// The whole picture of an arrangement, one line per row.
pub open spec fn wide_board_chars(cols: Seq<usize>, rows: int) -> Seq<char>
    decreases rows,
{
    if rows <= 0 {
        Seq::empty()
    } else {
        wide_board_chars(cols, rows - 1) + wide_row_chars(cols, rows - 1)
    }
}

impl Solutions {
    /// Draw each arrangement as text.
    pub fn render(&self) -> (r: Vec<String>)
        ensures
            r@.len() == self.0@.len(),
            forall|k: int|
                0 <= k < r@.len() ==> (#[trigger] r@[k])@ == wide_board_chars(
                    cols_of(self.0@[k]),
                    cols_of(self.0@[k]).len() as int,
                ),
    {
        proof {
            reveal_strlit("\u{3007}");
            reveal_strlit("\u{ff3f}");
            reveal_strlit("\n");
        }
        let mut out: Vec<String> = Vec::new();
        let mut k: usize = 0;
        while k < self.0.len()
            invariant
                k <= self.0@.len(),
                out@.len() == k,
                "\u{3007}"@ =~= seq!['\u{3007}'],
                "\u{ff3f}"@ =~= seq!['\u{ff3f}'],
                "\n"@ =~= seq!['\n'],
                forall|t: int|
                    0 <= t < k ==> (#[trigger] out@[t])@ == wide_board_chars(
                        cols_of(self.0@[t]),
                        cols_of(self.0@[t]).len() as int,
                    ),
            decreases self.0@.len() - k,
        {
            let columns = &self.0[k];
            let ghost cols = cols_of(self.0@[k as int]);
            let n = columns.0.len();
            let mut s = String::new();
            let mut row: usize = 0;
            while row < n
                invariant
                    row <= n,
                    k < self.0@.len(),
                    columns == &self.0@[k as int],
                    cols == cols_of(self.0@[k as int]),
                    n == cols.len(),
                    "\u{3007}"@ =~= seq!['\u{3007}'],
                    "\u{ff3f}"@ =~= seq!['\u{ff3f}'],
                    "\n"@ =~= seq!['\n'],
                    s@ == wide_board_chars(cols, row as int),
                decreases n - row,
            {
                let ghost row_start = s@;
                let q_column = columns.0[row].0;
                let mut j: usize = 0;
                while j < n
                    invariant
                        j <= n,
                        row < n,
                        k < self.0@.len(),
                        columns == &self.0@[k as int],
                        cols == cols_of(self.0@[k as int]),
                        n == cols.len(),
                        q_column == cols[row as int],
                        "\u{3007}"@ =~= seq!['\u{3007}'],
                        "\u{ff3f}"@ =~= seq!['\u{ff3f}'],
                        "\n"@ =~= seq!['\n'],
                        s@ == row_start + wide_row_chars(cols, row as int).subrange(0, j as int),
                    decreases n - j,
                {
                    if j == q_column {
                        s.append("\u{3007}");
                    } else {
                        s.append("\u{ff3f}");
                    }
                    proof {
                        assert(wide_row_chars(cols, row as int).subrange(0, j + 1)
                            =~= wide_row_chars(cols, row as int).subrange(0, j as int).push(
                            wide_row_chars(cols, row as int)[j as int],
                        ));
                        assert(s@ =~= row_start + wide_row_chars(cols, row as int).subrange(
                            0,
                            j + 1,
                        ));
                    }
                    j += 1;
                }
                s.append("\n");
                proof {
                    assert(wide_row_chars(cols, row as int)
                        =~= wide_row_chars(cols, row as int).subrange(0, n as int).push('\n'));
                    assert(s@ =~= row_start + wide_row_chars(cols, row as int));
                    assert(s@ =~= wide_board_chars(cols, row + 1));
                }
                row += 1;
            }
            out.push(s);
            k += 1;
        }
        out
    }

    pub fn data(&self) -> (r: &Vec<Rows>)
        ensures
            r == &self.0,
    {
        &self.0
    }
}

impl Rows {
    pub fn data(&self) -> (r: &Vec<Column>)
        ensures
            r == &self.0,
    {
        &self.0
    }
}

impl Column {
    pub fn data(&self) -> (r: usize)
        ensures
            r == self.0,
    {
        self.0
    }
}

} // verus!
