//! Construction of instances from parsed coupling entries, including
//! the QUBO-to-Ising conversion rule.
//!
//! An input line "i j K" of an instance file arrives here as one entry
//! `(i, j, K)`. A diagonal entry sets a bias (Ising mode) or applies
//! the QUBO rule offset += K/2, h_i += K/2. An off-diagonal entry sets
//! J_ij = J_ji = K (Ising), or applies offset += K/8 twice,
//! h_i += K/4, h_j += K/4 and J_ij = J_ji = K/4 (QUBO). Entries naming
//! the same pair accumulate.
use vstd::prelude::*;

use crate::errors::PtError;
use crate::instance::{BqmIsingInstance, N_MAX, SUS_MAX, W_MAX};
use crate::sums::{
    abs1, dense_abs, lemma_dense_abs_pointwise, lemma_dense_abs_zero, lemma_lookup_absent,
    lemma_lookup_insert, lemma_lookup_set, lemma_sorted_increasing, row_lookup, row_wf,
};

verus! {

/// Offset contributed by one input entry.
pub open spec fn line_offset(e: (u32, u32, i64), qubo: bool) -> int {
    let k = e.2 as int;
    if qubo {
        if e.0 == e.1 {
            k / 2
        } else {
            (k / 8) + (k / 8)
        }
    } else {
        0
    }
}

/// Bias contributed by one input entry to site `i`.
pub open spec fn line_bias(e: (u32, u32, i64), qubo: bool, i: int) -> int {
    let k = e.2 as int;
    if e.0 == e.1 {
        if e.0 as int == i {
            if qubo {
                k / 2
            } else {
                k
            }
        } else {
            0
        }
    } else if qubo {
        (if e.0 as int == i {
            k / 4
        } else {
            0
        }) + (if e.1 as int == i {
            k / 4
        } else {
            0
        })
    } else {
        0
    }
}

/// Coupling contributed by one input entry to the pair (i, j).
pub open spec fn line_cpl(e: (u32, u32, i64), qubo: bool, i: int, j: int) -> int {
    let k = e.2 as int;
    if e.0 != e.1 && ((e.0 as int == i && e.1 as int == j) || (e.0 as int == j && e.1 as int
        == i)) {
        if qubo {
            k / 4
        } else {
            k
        }
    } else {
        0
    }
}

/// Total offset of a list of entries.
pub open spec fn offset_of_entries(es: Seq<(u32, u32, i64)>, qubo: bool) -> int
    decreases es.len(),
{
    if es.len() == 0 {
        0
    } else {
        offset_of_entries(es.drop_last(), qubo) + line_offset(es.last(), qubo)
    }
}

/// Total bias of a list of entries at site `i`.
pub open spec fn bias_of_entries(es: Seq<(u32, u32, i64)>, qubo: bool, i: int) -> int
    decreases es.len(),
{
    if es.len() == 0 {
        0
    } else {
        bias_of_entries(es.drop_last(), qubo, i) + line_bias(es.last(), qubo, i)
    }
}

/// Total coupling of a list of entries at the pair (i, j).
pub open spec fn cpl_of_entries(es: Seq<(u32, u32, i64)>, qubo: bool, i: int, j: int) -> int
    decreases es.len(),
{
    if es.len() == 0 {
        0
    } else {
        cpl_of_entries(es.drop_last(), qubo, i, j) + line_cpl(es.last(), qubo, i, j)
    }
}

/// Eight times the summed magnitudes of the entry values: a generous
/// budget that dominates every weight the conversion can produce.
pub open spec fn abs_in(es: Seq<(u32, u32, i64)>) -> int
    decreases es.len(),
{
    if es.len() == 0 {
        0
    } else {
        abs_in(es.drop_last()) + 8 * abs1(es.last().2 as int)
    }
}

/// The inputs on which construction succeeds: a sensible size, indices
/// in range, and a bounded total input weight.
pub open spec fn entries_ok(n: int, es: Seq<(u32, u32, i64)>) -> bool {
    &&& 1 <= n <= N_MAX as int
    &&& forall|t: int| 0 <= t < es.len() ==> (#[trigger] es[t]).0 < n && es[t].1 < n
    &&& abs_in(es) <= W_MAX as int
}

/// The coupling read off a list of entries is symmetric in its pair.
proof fn lemma_cpl_of_entries_sym(es: Seq<(u32, u32, i64)>, qubo: bool, i: int, j: int)
    ensures
        cpl_of_entries(es, qubo, i, j) == cpl_of_entries(es, qubo, j, i),
    decreases es.len(),
{
    if es.len() > 0 {
        lemma_cpl_of_entries_sym(es.drop_last(), qubo, i, j);
    }
}

/// The input weight of a prefix never exceeds that of the whole.
proof fn lemma_abs_in_prefix(es: Seq<(u32, u32, i64)>, t: int)
    requires
        0 <= t <= es.len(),
    ensures
        abs_in(es.take(t)) <= abs_in(es),
        abs_in(es.take(t)) >= 0,
    decreases es.len() - t,
{
    if t == es.len() {
        assert(es.take(t) =~= es);
        lemma_abs_in_nonneg(es);
    } else {
        lemma_abs_in_prefix(es, t + 1);
        assert(es.take(t + 1).drop_last() =~= es.take(t));
        lemma_abs_in_nonneg(es.take(t));
    }
}

proof fn lemma_abs_in_nonneg(es: Seq<(u32, u32, i64)>)
    ensures
        abs_in(es) >= 0,
    decreases es.len(),
{
    if es.len() > 0 {
        lemma_abs_in_nonneg(es.drop_last());
    }
}

/// Division by a positive integer cannot grow the magnitude.
proof fn lemma_div_abs(a: int, d: int)
    requires
        d >= 1,
    ensures
        abs1(a / d) <= abs1(a),
{
    vstd::arithmetic::div_mod::lemma_fundamental_div_mod(a, d);
    let q = a / d;
    let r = a % d;
    vstd::arithmetic::div_mod::lemma_mod_bound(a, d);
    assert(abs1(q) <= abs1(a)) by (nonlinear_arith)
        requires
            a == d * q + r,
            0 <= r < d,
            d >= 1,
    ;
}

/// A single dense reading is bounded by the dense absolute sum.
proof fn lemma_lookup_le_dense_abs(row: Seq<(u32, i64)>, j: int, k: int)
    requires
        0 <= j < k,
    ensures
        abs1(row_lookup(row, j)) <= dense_abs(row, k),
        dense_abs(row, k) >= 0,
    decreases k,
{
    if k == j + 1 {
        lemma_dense_abs_nonneg_local(row, j);
    } else {
        lemma_lookup_le_dense_abs(row, j, k - 1);
    }
}

proof fn lemma_dense_abs_nonneg_local(row: Seq<(u32, i64)>, k: int)
    ensures
        dense_abs(row, k) >= 0,
    decreases k,
{
    if k > 0 {
        lemma_dense_abs_nonneg_local(row, k - 1);
    }
}

/// The value of the entry at position `t` is the dense reading at its
/// column.
proof fn lemma_lookup_at(row: Seq<(u32, i64)>, t: int)
    requires
        forall|u: int| 0 <= u < row.len() - 1 ==> (#[trigger] row[u]).0 < row[u + 1].0,
        0 <= t < row.len(),
    ensures
        row_lookup(row, row[t].0 as int) == row[t].1 as int,
    decreases row.len(),
{
    if t == row.len() - 1 {
    } else {
        lemma_sorted_increasing(row, t, row.len() - 1);
        assert(forall|u: int|
            0 <= u < row.drop_last().len() ==> (#[trigger] row.drop_last()[u]) == row[u]);
        lemma_lookup_at(row.drop_last(), t);
    }
}

/// Add `k` to the coupling of `row` at column `j`, keeping the row
/// sorted, in bounds and free of a diagonal entry.
fn row_add(
    row: &mut Vec<(u32, i64)>,
    j: u32,
    k: i64,
    Ghost(own): Ghost<int>,
    Ghost(n): Ghost<int>,
)
    requires
        row_wf(old(row)@, own, n),
        (j as int) < n,
        j as int != own,
        abs1(row_lookup(old(row)@, j as int)) + abs1(k as int) < 0x4000_0000_0000_0000,
    ensures
        row_wf(final(row)@, own, n),
        forall|c: int|
            row_lookup(final(row)@, c) == row_lookup(old(row)@, c) + if c == j as int {
                k as int
            } else {
                0
            },
{
    let m = row.len();
    let mut t: usize = 0;
    while t < row.len() && row[t].0 < j
        invariant
            t <= row@.len(),
            row@ == old(row)@,
            forall|u: int| 0 <= u < t ==> (#[trigger] row@[u]).0 < j,
        decreases row@.len() - t,
    {
        t = t + 1;
    }
    if t < row.len() && row[t].0 == j {
        let old_v = row[t].1;
        proof {
            lemma_lookup_at(row@, t as int);
        }
        let e = (j, old_v + k);
        let ghost prev = row@;
        row.set(t, e);
        proof {
            assert forall|c: int| row_lookup(row@, c) == row_lookup(prev, c) + (if c == j as int {
                k as int
            } else {
                0
            }) by {
                lemma_lookup_set(prev, t as int, e, c);
            }
            assert(forall|u: int|
                0 <= u < row@.len() && u != t as int ==> row@[u] == prev[u]);
        }
    } else {
        proof {
            assert forall|u: int| t as int <= u < row@.len() implies (#[trigger] row@[u]).0
                > j by {
                if u > t as int {
                    lemma_sorted_increasing(row@, t as int, u);
                }
            }
            lemma_lookup_absent(row@, j as int);
        }
        let e = (j, k);
        let ghost prev = row@;
        row.insert(t, e);
        proof {
            assert(row@ == prev.insert(t as int, e));
            assert forall|c: int| row_lookup(row@, c) == row_lookup(prev, c) + (if c == j as int {
                k as int
            } else {
                0
            }) by {
                lemma_lookup_insert(prev, t as int, e, c);
            }
            assert(forall|u: int| 0 <= u < t ==> row@[u] == prev[u]);
            assert(forall|u: int|
                t < u < row@.len() ==> row@[u] == prev[u - 1]);
            assert forall|u: int| 0 <= u < row@.len() - 1 implies (#[trigger] row@[u]).0 < row@[u
                + 1].0 by {
                if u + 1 < t as int {
                } else if u + 1 == t as int {
                } else if u == t as int {
                } else {
                }
            }
        }
    }
}

/// Sum of entry magnitudes of a bias vector over the first `k` sites.
pub open spec fn seq_abs_to(b: Seq<i64>, k: int) -> int
    decreases k,
{
    if k <= 0 {
        0
    } else {
        seq_abs_to(b, k - 1) + abs1(b[k - 1] as int)
    }
}

/// Sum of dense row weights over the first `k` rows.
pub open spec fn rows_abs_to(rows: Seq<Vec<(u32, i64)>>, n: int, k: int) -> int
    decreases k,
{
    if k <= 0 {
        0
    } else {
        rows_abs_to(rows, n, k - 1) + dense_abs(rows[k - 1]@, n)
    }
}

/// A single bias magnitude is bounded by the vector's weight.
proof fn lemma_seq_abs_at(b: Seq<i64>, i: int, k: int)
    requires
        0 <= i < k,
    ensures
        abs1(b[i] as int) <= seq_abs_to(b, k),
        seq_abs_to(b, k) >= 0,
    decreases k,
{
    if k == i + 1 {
        lemma_seq_abs_nonneg(b, i);
    } else {
        lemma_seq_abs_at(b, i, k - 1);
    }
}

proof fn lemma_seq_abs_nonneg(b: Seq<i64>, k: int)
    ensures
        seq_abs_to(b, k) >= 0,
    decreases k,
{
    if k > 0 {
        lemma_seq_abs_nonneg(b, k - 1);
    }
}

/// A single row weight is bounded by the total row weight.
proof fn lemma_rows_abs_at(rows: Seq<Vec<(u32, i64)>>, n: int, i: int, k: int)
    requires
        0 <= i < k,
    ensures
        dense_abs(rows[i]@, n) <= rows_abs_to(rows, n, k),
        rows_abs_to(rows, n, k) >= 0,
    decreases k,
{
    if k == i + 1 {
        lemma_rows_abs_nonneg(rows, n, i);
    } else {
        lemma_rows_abs_at(rows, n, i, k - 1);
        lemma_dense_abs_nonneg_local(rows[k - 1]@, n);
    }
    lemma_dense_abs_nonneg_local(rows[i]@, n);
}

proof fn lemma_rows_abs_nonneg(rows: Seq<Vec<(u32, i64)>>, n: int, k: int)
    ensures
        rows_abs_to(rows, n, k) >= 0,
    decreases k,
{
    if k > 0 {
        lemma_rows_abs_nonneg(rows, n, k - 1);
        lemma_dense_abs_nonneg_local(rows[k - 1]@, n);
    }
}

/// Replacing one bias moves the vector's weight by the change there.
proof fn lemma_seq_abs_update(b: Seq<i64>, i: int, v: i64, k: int)
    requires
        0 <= i < b.len(),
        k <= b.len(),
    ensures
        seq_abs_to(b.update(i, v), k) == seq_abs_to(b, k) + if i < k {
            abs1(v as int) - abs1(b[i] as int)
        } else {
            0
        },
    decreases k,
{
    if k > 0 {
        lemma_seq_abs_update(b, i, v, k - 1);
    }
}

/// All-zero biases weigh nothing.
proof fn lemma_seq_abs_zero(b: Seq<i64>, k: int)
    requires
        forall|i: int| 0 <= i < k ==> b[i] == 0i64,
    ensures
        seq_abs_to(b, k) == 0,
    decreases k,
{
    if k > 0 {
        lemma_seq_abs_zero(b, k - 1);
    }
}

/// All-empty rows weigh nothing.
proof fn lemma_rows_abs_empty(rows: Seq<Vec<(u32, i64)>>, n: int, k: int)
    requires
        forall|i: int| 0 <= i < k ==> (#[trigger] rows[i])@.len() == 0,
    ensures
        rows_abs_to(rows, n, k) == 0,
    decreases k,
{
    if k > 0 {
        lemma_rows_abs_empty(rows, n, k - 1);
        lemma_dense_abs_zero(rows[k - 1]@, n);
    }
}

/// In Ising mode no entry contributes to the offset.
proof fn lemma_offset_ising_zero(es: Seq<(u32, u32, i64)>)
    ensures
        offset_of_entries(es, false) == 0,
    decreases es.len(),
{
    if es.len() > 0 {
        lemma_offset_ising_zero(es.drop_last());
    }
}

/// In Ising mode without diagonal entries no bias accumulates.
proof fn lemma_bias_ising_zero(es: Seq<(u32, u32, i64)>, i: int)
    requires
        forall|t: int| 0 <= t < es.len() ==> (#[trigger] es[t]).0 != es[t].1,
    ensures
        bias_of_entries(es, false, i) == 0,
    decreases es.len(),
{
    if es.len() > 0 {
        assert(forall|t: int|
            0 <= t < es.drop_last().len() ==> (#[trigger] es.drop_last()[t]) == es[t]);
        lemma_bias_ising_zero(es.drop_last(), i);
    }
}

/// Replacing one row moves the total row weight by the change there.
proof fn lemma_rows_abs_update(
    rows: Seq<Vec<(u32, i64)>>,
    n: int,
    i: int,
    v: Vec<(u32, i64)>,
    k: int,
)
    requires
        0 <= i < rows.len(),
        k <= rows.len(),
    ensures
        rows_abs_to(rows.update(i, v), n, k) == rows_abs_to(rows, n, k) + if i < k {
            dense_abs(v@, n) - dense_abs(rows[i]@, n)
        } else {
            0
        },
    decreases k,
{
    if k > 0 {
        lemma_rows_abs_update(rows, n, i, v, k - 1);
    }
}

/// Fold one input entry into the accumulating model.
#[verifier::rlimit(100)]
fn apply_entry(
    offset: &mut i64,
    bias: &mut Vec<i64>,
    rows: &mut Vec<Vec<(u32, i64)>>,
    e: (u32, u32, i64),
    qubo: bool,
    Ghost(n): Ghost<int>,
)
    requires
        old(bias)@.len() == n,
        old(rows)@.len() == n,
        1 <= n <= N_MAX as int,
        (e.0 as int) < n,
        (e.1 as int) < n,
        forall|i: int| 0 <= i < n ==> row_wf((#[trigger] old(rows)@[i])@, i, n),
        abs1(*old(offset) as int) + seq_abs_to(old(bias)@, n) + rows_abs_to(old(rows)@, n, n) + 8
            * abs1(e.2 as int) <= W_MAX as int,
    ensures
        final(bias)@.len() == n,
        final(rows)@.len() == n,
        forall|i: int| 0 <= i < n ==> row_wf((#[trigger] final(rows)@[i])@, i, n),
        *final(offset) as int == *old(offset) as int + line_offset(e, qubo),
        forall|i: int|
            0 <= i < n ==> (#[trigger] final(bias)@[i]) as int == old(bias)@[i] as int
                + line_bias(e, qubo, i),
        forall|i: int, j: int|
            0 <= i < n && 0 <= j < n ==> #[trigger] row_lookup(final(rows)@[i]@, j)
                == row_lookup(old(rows)@[i]@, j) + line_cpl(e, qubo, i, j),
        abs1(*final(offset) as int) + seq_abs_to(final(bias)@, n) + rows_abs_to(final(rows)@, n, n)
            <= abs1(*old(offset) as int) + seq_abs_to(old(bias)@, n) + rows_abs_to(
            old(rows)@,
            n,
            n,
        ) + 8 * abs1(e.2 as int),
{
    let (a, b, k) = e;
    proof {
        lemma_seq_abs_nonneg(bias@, n);
        lemma_rows_abs_nonneg(rows@, n, n);
        lemma_div_abs(k as int, 2);
        lemma_div_abs(k as int, 4);
        lemma_div_abs(k as int, 8);
    }
    if a == b {
        let add = if qubo {
            crate::fixp::floor_div_i64(k, 2)
        } else {
            k
        };
        if qubo {
            *offset = *offset + add;
        }
        let old_b = bias[a as usize];
        proof {
            lemma_seq_abs_at(bias@, a as int, n);
        }
        let new_b = old_b + add;
        let ghost prev_b = bias@;
        bias.set(a as usize, new_b);
        proof {
            lemma_seq_abs_update(prev_b, a as int, new_b, n);
        }
    } else {
        let add = if qubo {
            crate::fixp::floor_div_i64(k, 4)
        } else {
            k
        };
        let ghost rows0 = rows@;
        let mut row_a = rows.remove(a as usize);
        proof {
            assert(row_a == rows0[a as int]);
            lemma_lookup_le_dense_abs(row_a@, b as int, n);
            lemma_rows_abs_at(rows0, n, a as int, n);
        }
        let ghost row_a0 = row_a@;
        row_add(&mut row_a, b, add, Ghost(a as int), Ghost(n));
        proof {
            lemma_dense_abs_pointwise(row_a0, row_a@, b as int, n);
        }
        rows.insert(a as usize, row_a);
        let ghost rows1 = rows@;
        proof {
            assert(rows1 =~= rows0.update(a as int, rows1[a as int]));
            lemma_rows_abs_update(rows0, n, a as int, rows1[a as int], n);
            assert(forall|i: int|
                0 <= i < n && i != a as int ==> rows1[i] == rows0[i]);
        }
        let mut row_b = rows.remove(b as usize);
        proof {
            assert(row_b == rows1[b as int]);
            lemma_lookup_le_dense_abs(row_b@, a as int, n);
            lemma_rows_abs_at(rows1, n, b as int, n);
            lemma_rows_abs_nonneg(rows1, n, n);
        }
        let ghost row_b0 = row_b@;
        row_add(&mut row_b, a, add, Ghost(b as int), Ghost(n));
        proof {
            lemma_dense_abs_pointwise(row_b0, row_b@, a as int, n);
        }
        rows.insert(b as usize, row_b);
        proof {
            assert(rows@ =~= rows1.update(b as int, rows@[b as int]));
            lemma_rows_abs_update(rows1, n, b as int, rows@[b as int], n);
            assert(forall|i: int|
                0 <= i < n && i != b as int ==> rows@[i] == rows1[i]);
        }
        if qubo {
            let od = crate::fixp::floor_div_i64(k, 8);
            *offset = *offset + od;
            *offset = *offset + od;
            let ghost prev_b = bias@;
            let ba = bias[a as usize];
            proof {
                lemma_seq_abs_at(bias@, a as int, n);
            }
            let new_ba = ba + add;
            bias.set(a as usize, new_ba);
            proof {
                lemma_seq_abs_update(prev_b, a as int, new_ba, n);
            }
            let ghost prev_b2 = bias@;
            let bb = bias[b as usize];
            proof {
                lemma_seq_abs_at(bias@, b as int, n);
            }
            let new_bb = bb + add;
            bias.set(b as usize, new_bb);
            proof {
                lemma_seq_abs_update(prev_b2, b as int, new_bb, n);
            }
        }
    }
}

/// The instance's bias weight is the bias vector's weight.
proof fn lemma_habs_is_seq_abs(inst: BqmIsingInstance, k: int)
    ensures
        inst.habs_to(k) == seq_abs_to(inst.bias@, k),
    decreases k,
{
    if k > 0 {
        lemma_habs_is_seq_abs(inst, k - 1);
    }
}

/// The instance's coupling weight is the row vector's weight.
proof fn lemma_qabs_is_rows_abs(inst: BqmIsingInstance, k: int)
    ensures
        inst.qabs_to(k) == rows_abs_to(inst.coupling_vecs@, inst.nspins(), k),
    decreases k,
{
    if k > 0 {
        lemma_qabs_is_rows_abs(inst, k - 1);
    }
}

impl BqmIsingInstance {
    /// Build an instance from parsed instance-file entries. Each entry
    /// `(i, j, K)` is one input line; diagonal entries feed the bias,
    /// off-diagonal ones the symmetric coupling, under the Ising or
    /// QUBO reading. Returns an error exactly when the size or an
    /// index is out of range or the input weight exceeds the bound.
    #[verifier::rlimit(100)]
    pub fn from_entries(n: usize, entries: &Vec<(u32, u32, i64)>, qubo: bool) -> (r: Result<
        BqmIsingInstance,
        PtError,
    >)
        ensures
            match r {
                Ok(inst) => entries_ok(n as int, entries@) && inst.wf() && inst.nspins() == n
                    && inst.offset as int == offset_of_entries(entries@, qubo) && (forall|i: int|
                    0 <= i < n ==> #[trigger] inst.hb(i) == bias_of_entries(entries@, qubo, i)) && (
                forall|i: int, j: int|
                    0 <= i < n && 0 <= j < n ==> #[trigger] inst.cpl(i, j) == cpl_of_entries(
                        entries@,
                        qubo,
                        i,
                        j,
                    )) && inst.suscept_coefs@.len() == 0,
                Err(_) => !entries_ok(n as int, entries@),
            },
    {
        let ghost es = entries@;
        if n < 1 || n > N_MAX {
            return Err(PtError::new("instance size out of range"));
        }
        let m = entries.len();
        let mut wsum: i64 = 0;
        for t in 0..m
            invariant
                es == entries@,
                m == es.len(),
                1 <= n <= N_MAX,
                wsum == abs_in(es.take(t as int)),
                0 <= wsum <= W_MAX,
                forall|u: int| 0 <= u < t ==> (#[trigger] es[u]).0 < n && es[u].1 < n,
        {
            let (i, j, k) = entries[t];
            proof {
                assert(es.take(t as int + 1).drop_last() =~= es.take(t as int));
                assert(es.take(t as int + 1).last() == es[t as int]);
                lemma_abs_in_prefix(es, t as int + 1);
            }
            if i as usize >= n || j as usize >= n {
                return Err(PtError::new("entry index out of range"));
            }
            if k == i64::MIN {
                return Err(PtError::new("instance weights exceed the admitted bound"));
            }
            let a = if k < 0 {
                -k
            } else {
                k
            };
            if a > (W_MAX - wsum) / 8 {
                proof {
                    assert(8 * (a as int) > W_MAX - wsum);
                }
                return Err(PtError::new("instance weights exceed the admitted bound"));
            }
            wsum = wsum + 8 * a;
        }
        proof {
            assert(es.take(m as int) =~= es);
            assert(entries_ok(n as int, es));
        }
        let mut offset: i64 = 0;
        let mut bias: Vec<i64> = Vec::new();
        let mut rows: Vec<Vec<(u32, i64)>> = Vec::new();
        for i in 0..n
            invariant
                bias@.len() == i,
                rows@.len() == i,
                forall|u: int| 0 <= u < i ==> bias@[u] == 0i64,
                forall|u: int| 0 <= u < i ==> (#[trigger] rows@[u])@.len() == 0,
        {
            bias.push(0i64);
            rows.push(Vec::new());
        }
        proof {
            lemma_seq_abs_zero(bias@, n as int);
            lemma_rows_abs_empty(rows@, n as int, n as int);
            assert forall|i: int, j: int| 0 <= i < n && 0 <= j < n implies #[trigger] row_lookup(
                rows@[i]@,
                j,
            ) == 0 by {
                assert(rows@[i]@.len() == 0);
            }
            assert(es.take(0) =~= Seq::<(u32, u32, i64)>::empty());
        }
        for t in 0..m
            invariant
                es == entries@,
                m == es.len(),
                entries_ok(n as int, es),
                1 <= n <= N_MAX,
                bias@.len() == n,
                rows@.len() == n,
                forall|i: int| 0 <= i < n ==> row_wf((#[trigger] rows@[i])@, i, n as int),
                offset as int == offset_of_entries(es.take(t as int), qubo),
                forall|i: int|
                    0 <= i < n ==> (#[trigger] bias@[i]) as int == bias_of_entries(
                        es.take(t as int),
                        qubo,
                        i,
                    ),
                forall|i: int, j: int|
                    0 <= i < n && 0 <= j < n ==> #[trigger] row_lookup(rows@[i]@, j)
                        == cpl_of_entries(es.take(t as int), qubo, i, j),
                abs1(offset as int) + seq_abs_to(bias@, n as int) + rows_abs_to(
                    rows@,
                    n as int,
                    n as int,
                ) <= abs_in(es.take(t as int)),
        {
            let e = entries[t];
            proof {
                assert(es.take(t as int + 1).drop_last() =~= es.take(t as int));
                assert(es.take(t as int + 1).last() == es[t as int]);
                lemma_abs_in_prefix(es, t as int + 1);
                lemma_abs_in_prefix(es, t as int);
            }
            apply_entry(&mut offset, &mut bias, &mut rows, e, qubo, Ghost(n as int));
        }
        proof {
            assert(es.take(m as int) =~= es);
        }
        let inst = BqmIsingInstance { offset, bias, coupling_vecs: rows, suscept_coefs: Vec::new() };
        proof {
            lemma_habs_is_seq_abs(inst, n as int);
            lemma_qabs_is_rows_abs(inst, n as int);
            assert forall|i: int, j: int|
                0 <= i < n && 0 <= j < n implies #[trigger] inst.cpl(i, j) == inst.cpl(j, i) by {
                lemma_cpl_of_entries_sym(es, qubo, i, j);
            }
            assert(inst.total_weight() <= W_MAX as int);
        }
        Ok(inst)
    }

    /// Build a zero-bias instance from purely off-diagonal entries;
    /// the caller guarantees there is no diagonal entry and the input
    /// is in range.
    pub fn new_zero_bias(n: usize, entries: &Vec<(u32, u32, i64)>) -> (r: BqmIsingInstance)
        requires
            entries_ok(n as int, entries@),
            forall|t: int|
                0 <= t < entries@.len() ==> (#[trigger] entries@[t]).0 != entries@[t].1,
        ensures
            r.wf(),
            r.nspins() == n,
            r.offset == 0,
            forall|i: int| 0 <= i < n ==> #[trigger] r.hb(i) == 0,
            forall|i: int, j: int|
                0 <= i < n && 0 <= j < n ==> #[trigger] r.cpl(i, j) == cpl_of_entries(
                    entries@,
                    false,
                    i,
                    j,
                ),
            r.suscept_coefs@.len() == 0,
    {
        match Self::from_entries(n, entries, false) {
            Ok(inst) => {
                proof {
                    lemma_offset_ising_zero(entries@);
                    assert forall|i: int| 0 <= i < n implies #[trigger] inst.hb(i) == 0 by {
                        lemma_bias_ising_zero(entries@, i);
                    }
                }
                inst
            },
            Err(_) => {
                proof {
                    assert(false);
                }
                vstd::pervasive::unreached()
            },
        }
    }

    /// Attach susceptibility coefficient rows, keeping exactly those of
    /// the right length with entries within the admitted bound; other
    /// rows are skipped, as a well-formed instance cannot carry them.
    pub fn with_suscept(self, suscept_coefs: &Vec<Vec<i64>>) -> (r: BqmIsingInstance)
        requires
            self.wf(),
        ensures
            r.wf(),
            r.offset == self.offset,
            r.bias == self.bias,
            r.coupling_vecs == self.coupling_vecs,
            r.nspins() == self.nspins(),
            r.suscept_coefs.deep_view() == self.suscept_coefs.deep_view() + kept_rows(
                suscept_coefs.deep_view(),
                self.nspins(),
            ),
    {
        let n = self.bias.len();
        let mut me = self;
        let m = suscept_coefs.len();
        let ghost cv = suscept_coefs.deep_view();
        proof {
            assert(cv.take(0) =~= Seq::<Seq<i64>>::empty());
            assert(me.suscept_coefs.deep_view() + kept_rows(cv.take(0), n as int)
                =~= me.suscept_coefs.deep_view());
        }
        for t in 0..m
            invariant
                me.wf(),
                me.offset == self.offset,
                me.bias == self.bias,
                me.coupling_vecs == self.coupling_vecs,
                n == me.nspins(),
                m == cv.len(),
                cv == suscept_coefs.deep_view(),
                me.suscept_coefs.deep_view() == self.suscept_coefs.deep_view() + kept_rows(
                    cv.take(t as int),
                    n as int,
                ),
        {
            let row = &suscept_coefs[t];
            proof {
                assert(cv[t as int] == row@);
                assert(cv.take(t as int + 1).drop_last() =~= cv.take(t as int));
                assert(cv.take(t as int + 1).last() == cv[t as int]);
            }
            let len = row.len();
            let mut copy: Vec<i64> = Vec::new();
            let mut ok = len == n;
            for u in 0..len
                invariant
                    row@ == cv[t as int],
                    len == row@.len(),
                    copy@ == row@.take(u as int),
                    ok == (len == n && forall|v: int|
                        0 <= v < u ==> -SUS_MAX <= #[trigger] row@[v] <= SUS_MAX),
            {
                let c = row[u];
                if c < -SUS_MAX || c > SUS_MAX {
                    ok = false;
                }
                copy.push(c);
                proof {
                    assert(copy@ =~= row@.take(u as int + 1));
                }
            }
            proof {
                assert(copy@ =~= row@);
            }
            if ok {
                let ghost before = me.suscept_coefs.deep_view();
                let ghost before_v = me.suscept_coefs@;
                let ghost me0 = me;
                me.suscept_coefs.push(copy);
                proof {
                    lemma_habs_is_seq_abs(me0, n as int);
                    lemma_qabs_is_rows_abs(me0, n as int);
                    lemma_habs_is_seq_abs(me, n as int);
                    lemma_qabs_is_rows_abs(me, n as int);
                    assert(me.suscept_coefs@ == before_v.push(copy));
                    assert forall|k2: int| 0 <= k2 < me.suscept_coefs@.len() implies (
                    #[trigger] me.suscept_coefs@[k2])@.len() == n as int by {
                        if k2 < before_v.len() {
                            assert(me.suscept_coefs@[k2] == before_v[k2]);
                        } else {
                            assert(me.suscept_coefs@[k2] == copy);
                        }
                    }
                    assert forall|k2: int, i2: int|
                        0 <= k2 < me.suscept_coefs@.len() && 0 <= i2 < n implies -SUS_MAX <= (
                    #[trigger] me.suscept_coefs@[k2]@[i2]) <= SUS_MAX by {
                        if k2 < before_v.len() {
                            assert(me.suscept_coefs@[k2] == before_v[k2]);
                        } else {
                            assert(me.suscept_coefs@[k2] == copy);
                            assert(copy@[i2] == row@[i2]);
                        }
                    }
                    assert(me.suscept_coefs.deep_view() =~= before.push(cv[t as int]));
                    assert(suscept_row_ok(cv[t as int], n as int));
                    assert(me.suscept_coefs.deep_view() =~= self.suscept_coefs.deep_view()
                        + kept_rows(cv.take(t as int + 1), n as int));
                    assert forall|i2: int| 0 <= i2 < me.nspins() implies row_wf(
                        #[trigger] me.row(i2),
                        i2,
                        me.nspins(),
                    ) by {
                        assert(me.row(i2) == me0.row(i2));
                        assert(row_wf(me0.row(i2), i2, me0.nspins()));
                    }
                    assert forall|i2: int, j2: int|
                        0 <= i2 < me.nspins() && 0 <= j2 < me.nspins() implies #[trigger] me.cpl(
                        i2,
                        j2,
                    ) == me.cpl(j2, i2) by {
                        assert(me0.cpl(i2, j2) == me0.cpl(j2, i2));
                    }
                    assert(me.wf());
                }
            } else {
                proof {
                    assert(!suscept_row_ok(cv[t as int], n as int));
                    assert(kept_rows(cv.take(t as int + 1), n as int) =~= kept_rows(
                        cv.take(t as int),
                        n as int,
                    ));
                    assert(me.wf());
                }
            }
        }
        proof {
            assert(cv.take(m as int) =~= cv);
        }
        me
    }
}

/// A susceptibility row the instance can carry: the right length, all
/// entries within the admitted bound.
pub open spec fn suscept_row_ok(row: Seq<i64>, n: int) -> bool {
    row.len() == n && forall|i: int| 0 <= i < row.len() ==> -SUS_MAX <= #[trigger] row[i] <= SUS_MAX
}

/// The subsequence of rows an instance keeps.
pub open spec fn kept_rows(coefs: Seq<Seq<i64>>, n: int) -> Seq<Seq<i64>>
    decreases coefs.len(),
{
    if coefs.len() == 0 {
        Seq::empty()
    } else {
        kept_rows(coefs.drop_last(), n) + if suscept_row_ok(coefs.last(), n) {
            seq![coefs.last()]
        } else {
            Seq::empty()
        }
    }
}

} // verus!
