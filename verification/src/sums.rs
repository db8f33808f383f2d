//! Specification-level sums over sparse coupling rows and dense spin
//! vectors, with the lemmas that connect the two views.
//!
//! A coupling row is a sequence of `(neighbour, value)` pairs sorted
//! strictly by neighbour index; its dense meaning at column `j` is
//! `row_lookup(row, j)`. Sums over a row are stated both sparsely (over
//! the entries) and densely (over all columns) and proved equal, so that
//! executable loops over the entries meet contracts phrased over the
//! dense mathematical model.
use vstd::prelude::*;

verus! {

/// A spin is one of the two values +1 / -1.
pub open spec fn is_spin(x: i8) -> bool {
    x == 1i8 || x == -1i8
}

/// Every element of the vector is a spin.
pub open spec fn all_spins(s: Seq<i8>) -> bool {
    forall|j: int| 0 <= j < s.len() ==> is_spin(#[trigger] s[j])
}

/// The spin at index `j`, as a mathematical integer.
pub open spec fn sv(s: Seq<i8>, j: int) -> int {
    s[j] as int
}

/// Absolute value.
pub open spec fn abs1(x: int) -> int {
    if x >= 0 {
        x
    } else {
        -x
    }
}

/// Entries name columns below `n`, never column `i`, and are sorted
/// strictly by column.
pub open spec fn row_wf(row: Seq<(u32, i64)>, i: int, n: int) -> bool {
    &&& forall|t: int|
        0 <= t < row.len() ==> (#[trigger] row[t]).0 as int != i && row[t].0 < n
    &&& forall|t: int|
        0 <= t < row.len() - 1 ==> (#[trigger] row[t]).0 < row[t + 1].0
}

/// The dense value of a sparse row at column `j`: the value of the entry
/// naming `j`, or zero where no entry does.
pub open spec fn row_lookup(row: Seq<(u32, i64)>, j: int) -> int
    decreases row.len(),
{
    if row.len() == 0 {
        0
    } else if row.last().0 as int == j {
        row.last().1 as int
    } else {
        row_lookup(row.drop_last(), j)
    }
}

/// Sparse sum of `value * spin(column)` over the entries with column
/// index above `b`.
pub open spec fn sparse_fsum(row: Seq<(u32, i64)>, s: Seq<i8>, b: int) -> int
    decreases row.len(),
{
    if row.len() == 0 {
        0
    } else {
        sparse_fsum(row.drop_last(), s, b) + if row.last().0 as int > b {
            row.last().1 * sv(s, row.last().0 as int)
        } else {
            0
        }
    }
}

/// Sparse sum of the absolute entry values.
pub open spec fn sparse_abs(row: Seq<(u32, i64)>) -> int
    decreases row.len(),
{
    if row.len() == 0 {
        0
    } else {
        sparse_abs(row.drop_last()) + abs1(row.last().1 as int)
    }
}

/// Dense sum of `row_lookup(row, j) * spin(j)` over columns `b < j < k`.
pub open spec fn dense_fsum(row: Seq<(u32, i64)>, s: Seq<i8>, b: int, k: int) -> int
    decreases k,
{
    if k <= 0 {
        0
    } else {
        dense_fsum(row, s, b, k - 1) + if k - 1 > b {
            row_lookup(row, k - 1) * sv(s, k - 1)
        } else {
            0
        }
    }
}

/// Dense sum of the absolute row values over columns below `k`.
pub open spec fn dense_abs(row: Seq<(u32, i64)>, k: int) -> int
    decreases k,
{
    if k <= 0 {
        0
    } else {
        dense_abs(row, k - 1) + abs1(row_lookup(row, k - 1))
    }
}

/// In a row sorted strictly by column, every earlier entry names a
/// smaller column than every later one.
pub proof fn lemma_sorted_increasing(row: Seq<(u32, i64)>, t1: int, t2: int)
    requires
        forall|t: int| 0 <= t < row.len() - 1 ==> (#[trigger] row[t]).0 < row[t + 1].0,
        0 <= t1 < t2 < row.len(),
    ensures
        row[t1].0 < row[t2].0,
    decreases t2 - t1,
{
    if t2 > t1 + 1 {
        lemma_sorted_increasing(row, t1, t2 - 1);
    }
}

/// A row none of whose entries names column `j` reads as zero there.
pub proof fn lemma_lookup_absent(row: Seq<(u32, i64)>, j: int)
    requires
        forall|t: int| 0 <= t < row.len() ==> (#[trigger] row[t]).0 as int != j,
    ensures
        row_lookup(row, j) == 0,
    decreases row.len(),
{
    if row.len() > 0 {
        lemma_lookup_absent(row.drop_last(), j);
    }
}

/// Appending an entry changes the dense reading only at the appended
/// column.
pub proof fn lemma_lookup_push(row: Seq<(u32, i64)>, e: (u32, i64), j: int)
    ensures
        row_lookup(row.push(e), j) == if e.0 as int == j {
            e.1 as int
        } else {
            row_lookup(row, j)
        },
{
    assert(row.push(e).drop_last() =~= row);
    assert(row.push(e).last() == e);
}

/// Effect of appending an entry on a dense sum, when the entry's column
/// was previously absent.
pub proof fn lemma_dense_fsum_push(
    row: Seq<(u32, i64)>,
    e: (u32, i64),
    s: Seq<i8>,
    b: int,
    k: int,
)
    requires
        forall|t: int| 0 <= t < row.len() ==> (#[trigger] row[t]).0 as int != e.0 as int,
    ensures
        dense_fsum(row.push(e), s, b, k) == dense_fsum(row, s, b, k) + if b < (e.0 as int) && (
        e.0 as int) < k {
            e.1 * sv(s, e.0 as int)
        } else {
            0
        },
    decreases k,
{
    if k > 0 {
        lemma_dense_fsum_push(row, e, s, b, k - 1);
        lemma_lookup_push(row, e, k - 1);
        if e.0 as int == k - 1 {
            lemma_lookup_absent(row, k - 1);
        }
    }
}

/// Effect of appending an entry on a dense absolute sum, when the
/// entry's column was previously absent.
pub proof fn lemma_dense_abs_push(row: Seq<(u32, i64)>, e: (u32, i64), k: int)
    requires
        forall|t: int| 0 <= t < row.len() ==> (#[trigger] row[t]).0 as int != e.0 as int,
    ensures
        dense_abs(row.push(e), k) == dense_abs(row, k) + if (e.0 as int) < k {
            abs1(e.1 as int)
        } else {
            0
        },
    decreases k,
{
    if k > 0 {
        lemma_dense_abs_push(row, e, k - 1);
        lemma_lookup_push(row, e, k - 1);
        if e.0 as int == k - 1 {
            lemma_lookup_absent(row, k - 1);
        }
    }
}

/// The sparse and dense sums of a well-formed row agree.
pub proof fn lemma_sparse_dense_fsum(row: Seq<(u32, i64)>, s: Seq<i8>, i: int, n: int, b: int)
    requires
        row_wf(row, i, n),
    ensures
        sparse_fsum(row, s, b) == dense_fsum(row, s, b, n),
    decreases row.len(),
{
    if row.len() == 0 {
        lemma_dense_fsum_zero(row, s, b, n);
    } else {
        let r0 = row.drop_last();
        let e = row.last();
        assert(row_wf(r0, i, n)) by {
            assert(forall|t: int|
                0 <= t < r0.len() ==> (#[trigger] r0[t]) == row[t]);
        }
        assert(forall|t: int| 0 <= t < r0.len() ==> (#[trigger] r0[t]).0 < e.0) by {
            assert forall|t: int| 0 <= t < r0.len() implies (#[trigger] r0[t]).0 < e.0 by {
                lemma_sorted_increasing(row, t, row.len() - 1);
            }
        }
        lemma_sparse_dense_fsum(r0, s, i, n, b);
        assert(row =~= r0.push(e));
        lemma_dense_fsum_push(r0, e, s, b, n);
    }
}

/// A dense sum over an empty row is zero.
pub proof fn lemma_dense_fsum_zero(row: Seq<(u32, i64)>, s: Seq<i8>, b: int, k: int)
    requires
        row.len() == 0,
    ensures
        dense_fsum(row, s, b, k) == 0,
    decreases k,
{
    if k > 0 {
        lemma_dense_fsum_zero(row, s, b, k - 1);
    }
}

/// A dense absolute sum over an empty row is zero.
pub proof fn lemma_dense_abs_zero(row: Seq<(u32, i64)>, k: int)
    requires
        row.len() == 0,
    ensures
        dense_abs(row, k) == 0,
    decreases k,
{
    if k > 0 {
        lemma_dense_abs_zero(row, k - 1);
    }
}

/// The sparse and dense absolute sums of a well-formed row agree.
pub proof fn lemma_sparse_dense_abs(row: Seq<(u32, i64)>, i: int, n: int)
    requires
        row_wf(row, i, n),
    ensures
        sparse_abs(row) == dense_abs(row, n),
    decreases row.len(),
{
    if row.len() == 0 {
        lemma_dense_abs_zero(row, n);
    } else {
        let r0 = row.drop_last();
        let e = row.last();
        assert(row_wf(r0, i, n)) by {
            assert(forall|t: int|
                0 <= t < r0.len() ==> (#[trigger] r0[t]) == row[t]);
        }
        assert(forall|t: int| 0 <= t < r0.len() ==> (#[trigger] r0[t]).0 < e.0) by {
            assert forall|t: int| 0 <= t < r0.len() implies (#[trigger] r0[t]).0 < e.0 by {
                lemma_sorted_increasing(row, t, row.len() - 1);
            }
        }
        lemma_sparse_dense_abs(r0, i, n);
        assert(row =~= r0.push(e));
        lemma_dense_abs_push(r0, e, n);
        assert(e.0 < n);
    }
}

/// A sparse absolute sum is never negative.
pub proof fn lemma_sparse_abs_nonneg(row: Seq<(u32, i64)>)
    ensures
        sparse_abs(row) >= 0,
    decreases row.len(),
{
    if row.len() > 0 {
        lemma_sparse_abs_nonneg(row.drop_last());
    }
}

/// A prefix of a row has at most the absolute sum of the row.
pub proof fn lemma_sparse_abs_prefix(row: Seq<(u32, i64)>, t: int)
    requires
        0 <= t <= row.len(),
    ensures
        sparse_abs(row.take(t)) <= sparse_abs(row),
    decreases row.len() - t,
{
    if t == row.len() {
        assert(row.take(t) =~= row);
    } else {
        lemma_sparse_abs_prefix(row, t + 1);
        assert(row.take(t + 1).drop_last() =~= row.take(t));
        assert(abs1(row.take(t + 1).last().1 as int) >= 0);
    }
}

/// A sparse sum of spin terms is bounded by the absolute sum.
pub proof fn lemma_sparse_fsum_bound(row: Seq<(u32, i64)>, s: Seq<i8>, b: int)
    requires
        all_spins(s),
        forall|t: int| 0 <= t < row.len() ==> 0 <= (#[trigger] row[t]).0 < s.len(),
    ensures
        abs1(sparse_fsum(row, s, b)) <= sparse_abs(row),
    decreases row.len(),
{
    if row.len() > 0 {
        let r0 = row.drop_last();
        assert(forall|t: int|
            0 <= t < r0.len() ==> 0 <= (#[trigger] r0[t]).0 < s.len()) by {
            assert(forall|t: int|
                0 <= t < r0.len() ==> (#[trigger] r0[t]) == row[t]);
        }
        lemma_sparse_fsum_bound(r0, s, b);
        let e = row.last();
        assert(is_spin(s[e.0 as int]));
        lemma_mul_by_spin(e.1 as int, sv(s, e.0 as int));
    }
}

/// Multiplying by a spin keeps the magnitude.
pub proof fn lemma_mul_by_spin(x: int, p: int)
    by (nonlinear_arith)
    requires
        p == 1 || p == -1,
    ensures
        abs1(x * p) == abs1(x),
{
}

/// A dense sum of spin terms is bounded by the dense absolute sum.
pub proof fn lemma_dense_fsum_bound(row: Seq<(u32, i64)>, s: Seq<i8>, b: int, k: int)
    requires
        all_spins(s),
        k <= s.len(),
    ensures
        abs1(dense_fsum(row, s, b, k)) <= dense_abs(row, k),
    decreases k,
{
    if k > 0 {
        lemma_dense_fsum_bound(row, s, b, k - 1);
        if k - 1 > b {
            assert(is_spin(s[k - 1]));
            lemma_mul_by_spin(row_lookup(row, k - 1), sv(s, k - 1));
        }
    }
}

/// Negating the spin at index `i` shifts a dense sum by twice the term
/// at `i`, and leaves it unchanged where column `i` is not summed.
pub proof fn lemma_dense_fsum_flip(
    row: Seq<(u32, i64)>,
    s: Seq<i8>,
    s2: Seq<i8>,
    i: int,
    b: int,
    k: int,
)
    requires
        0 <= i < s.len(),
        is_spin(s[i]),
        s2 == s.update(i, (-s[i]) as i8),
        k <= s.len(),
    ensures
        dense_fsum(row, s2, b, k) == dense_fsum(row, s, b, k) + if b < i < k {
            -2 * row_lookup(row, i) * sv(s, i)
        } else {
            0
        },
    decreases k,
{
    if k > 0 {
        lemma_dense_fsum_flip(row, s, s2, i, b, k - 1);
        if k - 1 > b {
            if k - 1 == i {
                assert(sv(s2, i) == -sv(s, i));
                assert(row_lookup(row, k - 1) * sv(s2, k - 1) == row_lookup(row, k - 1) * sv(
                    s,
                    k - 1,
                ) + -2 * row_lookup(row, i) * sv(s, i)) by (nonlinear_arith)
                    requires
                        sv(s2, i) == -sv(s, i),
                        k - 1 == i,
                ;
            } else {
                assert(sv(s2, k - 1) == sv(s, k - 1));
            }
        }
    }
}

/// Splitting a full dense sum at column `i`: the part below `i`, the
/// term at `i`, and the part above `i`.
pub proof fn lemma_dense_fsum_split(row: Seq<(u32, i64)>, s: Seq<i8>, i: int, k: int)
    requires
        0 <= i < k,
    ensures
        dense_fsum(row, s, -1, k) == dense_fsum(row, s, -1, i) + row_lookup(row, i) * sv(s, i)
            + dense_fsum(row, s, i, k),
    decreases k,
{
    if k == i + 1 {
        lemma_dense_fsum_high_zero(row, s, i, i);
    } else {
        lemma_dense_fsum_split(row, s, i, k - 1);
    }
}

/// Rows that read equally everywhere but at column `j` have dense
/// absolute sums differing exactly by the change at `j`.
pub proof fn lemma_dense_abs_pointwise(ra: Seq<(u32, i64)>, rb: Seq<(u32, i64)>, j: int, k: int)
    requires
        forall|c: int| c != j ==> row_lookup(ra, c) == row_lookup(rb, c),
    ensures
        dense_abs(rb, k) == dense_abs(ra, k) + if j < k && 0 <= j {
            abs1(row_lookup(rb, j)) - abs1(row_lookup(ra, j))
        } else {
            0
        },
    decreases k,
{
    if k > 0 {
        lemma_dense_abs_pointwise(ra, rb, j, k - 1);
    }
}

/// Replacing the entry at position `t` by one with the same column
/// changes the dense reading only at that column.
pub proof fn lemma_lookup_set(row: Seq<(u32, i64)>, t: int, e: (u32, i64), c: int)
    requires
        forall|u: int| 0 <= u < row.len() - 1 ==> (#[trigger] row[u]).0 < row[u + 1].0,
        0 <= t < row.len(),
        row[t].0 == e.0,
    ensures
        row_lookup(row.update(t, e), c) == if e.0 as int == c {
            e.1 as int
        } else {
            row_lookup(row, c)
        },
    decreases row.len(),
{
    let rb = row.update(t, e);
    if t == row.len() - 1 {
        assert(rb.last() == e);
        assert(rb.drop_last() =~= row.drop_last());
        if e.0 as int != c {
            assert(row.last().0 == e.0);
        }
    } else {
        assert(rb.last() == row.last());
        lemma_sorted_increasing(row, t, row.len() - 1);
        assert(rb.drop_last() =~= row.drop_last().update(t, e));
        assert(forall|u: int|
            0 <= u < row.drop_last().len() - 1 ==> (#[trigger] row.drop_last()[u]).0
                < row.drop_last()[u + 1].0) by {
            assert(forall|u: int|
                0 <= u < row.drop_last().len() ==> (#[trigger] row.drop_last()[u]) == row[u]);
        }
        lemma_lookup_set(row.drop_last(), t, e, c);
    }
}

/// Inserting an entry between the columns around position `t` changes
/// the dense reading only at the inserted column.
pub proof fn lemma_lookup_insert(row: Seq<(u32, i64)>, t: int, e: (u32, i64), c: int)
    requires
        0 <= t <= row.len(),
        forall|u: int| 0 <= u < row.len() ==> (#[trigger] row[u]).0 as int != e.0 as int,
    ensures
        row_lookup(row.insert(t, e), c) == if e.0 as int == c {
            e.1 as int
        } else {
            row_lookup(row, c)
        },
    decreases row.len(),
{
    let rb = row.insert(t, e);
    if t == row.len() {
        assert(rb =~= row.push(e));
        lemma_lookup_push(row, e, c);
        if e.0 as int == c {
        } else {
        }
    } else {
        assert(rb.last() == row.last());
        assert(rb.drop_last() =~= row.drop_last().insert(t, e));
        assert(forall|u: int|
            0 <= u < row.drop_last().len() ==> (#[trigger] row.drop_last()[u]) == row[u]);
        lemma_lookup_insert(row.drop_last(), t, e, c);
        if row.last().0 as int == c {
        }
    }
}

/// A dense sum over columns above `b` but below `k <= b + 1` is empty.
pub proof fn lemma_dense_fsum_high_zero(row: Seq<(u32, i64)>, s: Seq<i8>, b: int, k: int)
    requires
        k <= b + 1,
    ensures
        dense_fsum(row, s, b, k) == 0,
    decreases k,
{
    if k > 0 {
        lemma_dense_fsum_high_zero(row, s, b, k - 1);
    }
}

} // verus!
