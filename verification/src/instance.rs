//! The binary quadratic model instance: immutable sparse couplings and
//! biases over N spins, with exact energy and energy-difference
//! contracts over the dense mathematical model.
//!
//! The Hamiltonian is H(s) = offset + sum_i h_i s_i + sum_{i<j} J_ij s_i s_j,
//! all quantities in Q47.16 fixed point.
use vstd::prelude::*;

use crate::spins::IsingState;
use crate::sums::{
    abs1, all_spins, dense_abs, dense_fsum, is_spin, lemma_dense_fsum_bound,
    lemma_dense_fsum_flip, lemma_dense_fsum_split, lemma_lookup_absent, lemma_mul_by_spin,
    lemma_sparse_abs_prefix, lemma_sparse_dense_abs, lemma_sparse_dense_fsum, row_lookup, row_wf,
    sparse_abs, sparse_fsum, sv,
};

verus! {

/// Largest admitted number of spins.
pub const N_MAX: usize = 0x10_0000;

/// Bound on the total absolute weight of an instance (offset, biases
/// and couplings together), in Q47.16 units. Every state's energy and
/// every single-flip energy difference stays within a small multiple of
/// this bound, so `i64` arithmetic never overflows.
pub const W_MAX: i64 = 0x1000_0000_0000;

/// Bound on the magnitude of a susceptibility coefficient.
pub const SUS_MAX: i64 = 0x100_0000_0000;

/// An Ising instance specified by an arbitrary binary quadratic model
/// in sparse adjacency-list form. Immutable after construction.
pub struct BqmIsingInstance {
    /// Constant energy offset.
    pub offset: i64,
    /// Bias h_i per spin.
    pub bias: Vec<i64>,
    /// Sparse symmetric couplings: row i lists (j, J_ij) sorted
    /// strictly by j, with no diagonal entry.
    pub coupling_vecs: Vec<Vec<(u32, i64)>>,
    /// Optional susceptibility coefficient rows, each of length N.
    pub suscept_coefs: Vec<Vec<i64>>,
}

impl BqmIsingInstance {
    /// Number of spins.
    pub open spec fn nspins(self) -> int {
        self.bias@.len() as int
    }

    /// Coupling row `i` as a sequence of entries.
    pub open spec fn row(self, i: int) -> Seq<(u32, i64)> {
        self.coupling_vecs@[i]@
    }

    /// The dense coupling J_ij.
    pub open spec fn cpl(self, i: int, j: int) -> int {
        row_lookup(self.row(i), j)
    }

    /// The bias h_i.
    pub open spec fn hb(self, i: int) -> int {
        self.bias@[i] as int
    }

    /// Linear energy over the first `k` spins.
    pub open spec fn lin_to(self, s: Seq<i8>, k: int) -> int
        decreases k,
    {
        if k <= 0 {
            0
        } else {
            self.lin_to(s, k - 1) + self.hb(k - 1) * sv(s, k - 1)
        }
    }

    /// Absolute bias sum over the first `k` spins.
    pub open spec fn habs_to(self, k: int) -> int
        decreases k,
    {
        if k <= 0 {
            0
        } else {
            self.habs_to(k - 1) + abs1(self.hb(k - 1))
        }
    }

    /// Coupling terms of row `i` with the higher-indexed partner, so
    /// each undirected edge is counted once, at its lower endpoint.
    pub open spec fn upper(self, s: Seq<i8>, i: int) -> int {
        dense_fsum(self.row(i), s, i, self.nspins())
    }

    /// Quadratic energy over rows below `k`.
    pub open spec fn quad_to(self, s: Seq<i8>, k: int) -> int
        decreases k,
    {
        if k <= 0 {
            0
        } else {
            self.quad_to(s, k - 1) + sv(s, k - 1) * self.upper(s, k - 1)
        }
    }

    /// Absolute coupling sum over rows below `k`.
    pub open spec fn qabs_to(self, k: int) -> int
        decreases k,
    {
        if k <= 0 {
            0
        } else {
            self.qabs_to(k - 1) + dense_abs(self.row(k - 1), self.nspins())
        }
    }

    /// The Hamiltonian H(s), in Q47.16 units.
    pub open spec fn espec(self, s: Seq<i8>) -> int {
        self.offset + self.lin_to(s, self.nspins()) + self.quad_to(s, self.nspins())
    }

    /// The local field at site `i`: h_i plus the full coupling row.
    pub open spec fn field(self, s: Seq<i8>, i: int) -> int {
        self.hb(i) + dense_fsum(self.row(i), s, -1, self.nspins())
    }

    /// The energy change of flipping spin `i`:
    /// H(..., -s_i, ...) - H(s) = -2 s_i (h_i + sum_j J_ij s_j).
    pub open spec fn dspec(self, s: Seq<i8>, i: int) -> int {
        -2 * sv(s, i) * self.field(s, i)
    }

    /// Total absolute weight of the instance.
    pub open spec fn total_weight(self) -> int {
        abs1(self.offset as int) + self.habs_to(self.nspins()) + self.qabs_to(self.nspins())
    }

    /// Structural well-formedness: square shape, sorted symmetric
    /// adjacency without diagonal, bounded total weight, and
    /// susceptibility rows of matching length and bounded entries.
    pub open spec fn wf(self) -> bool {
        &&& 1 <= self.nspins() <= N_MAX as int
        &&& self.coupling_vecs@.len() == self.nspins()
        &&& forall|i: int| 0 <= i < self.nspins() ==> row_wf(#[trigger] self.row(i), i, self.nspins())
        &&& forall|i: int, j: int|
            0 <= i < self.nspins() && 0 <= j < self.nspins() ==> #[trigger] self.cpl(i, j)
                == self.cpl(j, i)
        &&& self.total_weight() <= W_MAX as int
        &&& forall|k: int|
            0 <= k < self.suscept_coefs@.len() ==> (#[trigger] self.suscept_coefs@[k])@.len()
                == self.nspins()
        &&& forall|k: int, i: int|
            0 <= k < self.suscept_coefs@.len() && 0 <= i < self.nspins() ==> -SUS_MAX <= (
            #[trigger] self.suscept_coefs@[k]@[i]) <= SUS_MAX
    }

    /// A state's cached energy, when marked valid, is the Hamiltonian
    /// of its spin vector.
    pub open spec fn cache_ok(self, st: IsingState) -> bool {
        st.energy_init ==> st.energy == self.espec(st.arr@)
    }

    /// Number of spins.
    pub fn size(&self) -> (n: usize)
        ensures
            n == self.nspins(),
    {
        self.bias.len()
    }
}

/// The per-prefix absolute weight grows with the prefix.
proof fn lemma_weight_mono(inst: BqmIsingInstance, k1: int, k2: int)
    requires
        0 <= k1 <= k2,
    ensures
        inst.habs_to(k1) + inst.qabs_to(k1) <= inst.habs_to(k2) + inst.qabs_to(k2),
    decreases k2 - k1,
{
    if k2 > k1 {
        lemma_weight_mono(inst, k1, k2 - 1);
        lemma_dense_abs_nonneg(inst.row(k2 - 1), inst.nspins());
    }
}

/// A dense absolute sum is never negative.
proof fn lemma_dense_abs_nonneg(row: Seq<(u32, i64)>, k: int)
    ensures
        dense_abs(row, k) >= 0,
    decreases k,
{
    if k > 0 {
        lemma_dense_abs_nonneg(row, k - 1);
    }
}

/// The linear energy is bounded by the absolute bias sum.
proof fn lemma_lin_bound(inst: BqmIsingInstance, s: Seq<i8>, k: int)
    requires
        all_spins(s),
        k <= s.len(),
    ensures
        abs1(inst.lin_to(s, k)) <= inst.habs_to(k),
    decreases k,
{
    if k > 0 {
        lemma_lin_bound(inst, s, k - 1);
        assert(is_spin(s[k - 1]));
        lemma_mul_by_spin(inst.hb(k - 1), sv(s, k - 1));
    }
}

/// The quadratic energy is bounded by the absolute coupling sum.
proof fn lemma_quad_bound(inst: BqmIsingInstance, s: Seq<i8>, k: int)
    requires
        all_spins(s),
        k <= s.len(),
        s.len() == inst.nspins(),
    ensures
        abs1(inst.quad_to(s, k)) <= inst.qabs_to(k),
    decreases k,
{
    if k > 0 {
        lemma_quad_bound(inst, s, k - 1);
        assert(is_spin(s[k - 1]));
        lemma_dense_fsum_bound(inst.row(k - 1), s, k - 1, inst.nspins());
        lemma_mul_by_spin(inst.upper(s, k - 1), sv(s, k - 1));
    }
}

/// Every state's energy is bounded by the instance's total weight.
pub proof fn lemma_espec_bound(inst: BqmIsingInstance, s: Seq<i8>)
    requires
        inst.wf(),
        all_spins(s),
        s.len() == inst.nspins(),
    ensures
        abs1(inst.espec(s)) <= inst.total_weight() <= W_MAX as int,
{
    lemma_lin_bound(inst, s, inst.nspins());
    lemma_quad_bound(inst, s, inst.nspins());
}

/// How the linear energy responds to a single spin flip.
proof fn lemma_lin_flip(inst: BqmIsingInstance, s: Seq<i8>, s2: Seq<i8>, i: int, k: int)
    requires
        0 <= i < s.len(),
        is_spin(s[i]),
        s2 == s.update(i, (-s[i]) as i8),
        k <= s.len(),
    ensures
        inst.lin_to(s2, k) == inst.lin_to(s, k) + if i < k {
            -2 * inst.hb(i) * sv(s, i)
        } else {
            0
        },
    decreases k,
{
    if k > 0 {
        lemma_lin_flip(inst, s, s2, i, k - 1);
        if k - 1 == i {
            assert(sv(s2, i) == -sv(s, i));
            assert(inst.hb(i) * sv(s2, i) == inst.hb(i) * sv(s, i) + -2 * inst.hb(i) * sv(
                s,
                i,
            )) by (nonlinear_arith)
                requires
                    sv(s2, i) == -sv(s, i),
            ;
        } else {
            assert(sv(s2, k - 1) == sv(s, k - 1));
        }
    }
}

/// How the quadratic energy responds to a single spin flip: rows below
/// `i` move by their coupling to `i`, row `i` flips its own sign.
#[verifier::rlimit(60)]
proof fn lemma_quad_flip(inst: BqmIsingInstance, s: Seq<i8>, s2: Seq<i8>, i: int, k: int)
    requires
        inst.wf(),
        0 <= i < s.len(),
        is_spin(s[i]),
        s2 == s.update(i, (-s[i]) as i8),
        k <= s.len(),
        s.len() == inst.nspins(),
    ensures
        inst.quad_to(s2, k) == inst.quad_to(s, k) + -2 * sv(s, i) * (dense_fsum(
            inst.row(i),
            s,
            -1,
            if k < i {
                k
            } else {
                i
            },
        ) + if k > i {
            inst.upper(s, i)
        } else {
            0
        }),
    decreases k,
{
    let n = inst.nspins();
    if k <= 0 {
        let dk = if k < i {
            k
        } else {
            i
        };
        assert(dk <= 0);
        assert(dense_fsum(inst.row(i), s, -1, dk) == 0);
        assert(-2 * sv(s, i) * (dense_fsum(inst.row(i), s, -1, dk) + 0) == 0)
            by (nonlinear_arith)
            requires
                dense_fsum(inst.row(i), s, -1, dk) == 0,
        ;
    } else {
        lemma_quad_flip(inst, s, s2, i, k - 1);
        let r = k - 1;
        assert(inst.quad_to(s2, k) == inst.quad_to(s2, r) + sv(s2, r) * inst.upper(s2, r));
        assert(inst.quad_to(s, k) == inst.quad_to(s, r) + sv(s, r) * inst.upper(s, r));
        if r < i {
            assert(sv(s2, r) == sv(s, r));
            lemma_dense_fsum_flip(inst.row(r), s, s2, i, r, n);
            let a = sv(s, r);
            let u = inst.upper(s, r);
            let b = sv(s, i);
            let c = inst.cpl(i, r);
            assert(inst.cpl(r, i) == c);
            assert(inst.upper(s2, r) == u + -2 * c * b);
            assert(a * (u + -2 * c * b) == a * u + -2 * b * (c * a)) by (nonlinear_arith);
            assert(sv(s2, r) * inst.upper(s2, r) == a * u + -2 * b * (c * a));
            assert(dense_fsum(inst.row(i), s, -1, k) == dense_fsum(inst.row(i), s, -1, r) + c
                * a);
            let dlo = dense_fsum(inst.row(i), s, -1, r);
            assert(-2 * b * (dlo + c * a) == -2 * b * dlo + -2 * b * (c * a))
                by (nonlinear_arith);
        } else if r == i {
            assert(sv(s2, i) == -sv(s, i));
            lemma_dense_fsum_flip(inst.row(i), s, s2, i, i, n);
            assert(inst.upper(s2, i) == inst.upper(s, i));
            let b = sv(s, i);
            let u = inst.upper(s, i);
            assert((-b) * u == b * u + -2 * b * u) by (nonlinear_arith);
            assert(sv(s2, i) * inst.upper(s2, i) == b * u + -2 * b * u);
            let dlo = dense_fsum(inst.row(i), s, -1, i);
            assert(-2 * b * (dlo + u) == -2 * b * dlo + -2 * b * u) by (nonlinear_arith);
        } else {
            assert(sv(s2, r) == sv(s, r));
            lemma_dense_fsum_flip(inst.row(r), s, s2, i, r, n);
            assert(inst.upper(s2, r) == inst.upper(s, r));
        }
    }
}

/// The single-flip theorem: flipping spin `i` changes the Hamiltonian
/// by exactly `dspec`.
pub proof fn lemma_flip_delta(inst: BqmIsingInstance, s: Seq<i8>, i: int)
    requires
        inst.wf(),
        all_spins(s),
        s.len() == inst.nspins(),
        0 <= i < s.len(),
    ensures
        inst.espec(s.update(i, (-s[i]) as i8)) == inst.espec(s) + inst.dspec(s, i),
{
    let n = inst.nspins();
    let s2 = s.update(i, (-s[i]) as i8);
    lemma_lin_flip(inst, s, s2, i, n);
    lemma_quad_flip(inst, s, s2, i, n);
    lemma_dense_fsum_split(inst.row(i), s, i, n);
    assert(forall|t: int|
        0 <= t < inst.row(i).len() ==> (#[trigger] inst.row(i)[t]).0 as int != i);
    lemma_lookup_absent(inst.row(i), i);
    assert(inst.cpl(i, i) == 0);
    let low = dense_fsum(inst.row(i), s, -1, i);
    let up = inst.upper(s, i);
    assert(inst.field(s, i) == inst.hb(i) + low + up);
    assert(-2 * inst.hb(i) * sv(s, i) + -2 * sv(s, i) * (low + up) == -2 * sv(s, i) * (inst.hb(
        i,
    ) + low + up)) by (nonlinear_arith);
}

impl BqmIsingInstance {
    /// Compute H(s) from scratch, iterating each coupling row and
    /// counting every edge once at its lower endpoint.
    #[verifier::rlimit(60)]
    pub fn energy_ref(&self, state: &IsingState) -> (e: i64)
        requires
            self.wf(),
            state.wf(),
            state.arr@.len() == self.nspins(),
        ensures
            e == self.espec(state.arr@),
            abs1(e as int) <= self.total_weight(),
    {
        let n = self.bias.len();
        let ghost s = state.arr@;
        let mut acc: i64 = self.offset;
        proof {
            lemma_weight_mono(*self, 0, n as int);
        }
        for i in 0..n
            invariant
                self.wf(),
                state.wf(),
                state.arr@.len() == n,
                n == self.nspins(),
                s == state.arr@,
                acc == self.offset + self.lin_to(s, i as int) + self.quad_to(s, i as int),
                abs1(acc as int) <= abs1(self.offset as int) + self.habs_to(i as int)
                    + self.qabs_to(i as int),
        {
            let row = &self.coupling_vecs[i];
            let m = row.len();
            let mut part: i64 = 0;
            proof {
                assert(row@ == self.row(i as int));
                assert(row_wf(self.row(i as int), i as int, n as int));
                lemma_sparse_dense_abs(row@, i as int, n as int);
                assert(row@.take(0) =~= Seq::<(u32, i64)>::empty());
                lemma_weight_mono(*self, i as int + 1, n as int);
                lemma_dense_abs_nonneg(self.row(i as int), n as int);
            }
            for t in 0..m
                invariant
                    self.wf(),
                    state.wf(),
                    state.arr@.len() == n,
                    n == self.nspins(),
                    s == state.arr@,
                    0 <= (i as int) < n,
                    row@ == self.row(i as int),
                    m == row@.len(),
                    part == sparse_fsum(row@.take(t as int), s, i as int),
                    abs1(part as int) <= sparse_abs(row@.take(t as int)),
                    sparse_abs(row@) == dense_abs(row@, n as int),
                    dense_abs(row@, n as int) <= W_MAX as int,
            {
                let (j, kv) = row[t];
                proof {
                    lemma_sparse_abs_prefix(row@, t as int + 1);
                    assert(row@.take(t as int + 1).drop_last() =~= row@.take(t as int));
                    assert(row@.take(t as int + 1).last() == row@[t as int]);
                }
                if j > i as u32 {
                    let sj = state.arr[j as usize];
                    proof {
                        assert(is_spin(s[j as int]));
                        lemma_mul_spin_cases(kv as int, sv(s, j as int));
                    }
                    part = part + (if sj == 1 {
                        kv
                    } else {
                        -kv
                    });
                }
            }
            proof {
                assert(row@.take(m as int) =~= row@);
                lemma_sparse_dense_fsum(row@, s, i as int, n as int, i as int);
                assert(part == self.upper(s, i as int));
            }
            let hi = self.bias[i];
            let si = state.arr[i];
            let term = hi + part;
            proof {
                assert(is_spin(s[i as int]));
                lemma_mul_spin_cases(term as int, sv(s, i as int));
                lemma_mul_by_spin(term as int, sv(s, i as int));
                assert(sv(s, i as int) * (self.hb(i as int) + self.upper(s, i as int)) == self.hb(
                    i as int,
                ) * sv(s, i as int) + sv(s, i as int) * self.upper(s, i as int))
                    by (nonlinear_arith);
                lemma_weight_mono(*self, i as int + 1, n as int);
            }
            acc = acc + (if si == 1 {
                term
            } else {
                -term
            });
        }
        proof {
            lemma_espec_bound(*self, s);
        }
        acc
    }

    /// Return the cached energy where valid; otherwise compute, cache
    /// and mark it valid.
    pub fn energy(&self, state: &mut IsingState) -> (e: i64)
        requires
            self.wf(),
            old(state).wf(),
            old(state).arr@.len() == self.nspins(),
            self.cache_ok(*old(state)),
        ensures
            e == self.espec(old(state).arr@),
            final(state).arr@ == old(state).arr@,
            final(state).energy == e,
            final(state).energy_init,
            final(state).wf(),
            self.cache_ok(*final(state)),
    {
        if state.energy_init {
            return state.energy;
        }
        let e = self.energy_ref(state);
        state.energy = e;
        state.energy_init = true;
        e
    }

    /// The energy change of flipping spin `mv`, leaving the state
    /// untouched: the caller applies the flip and adds the result to
    /// the cached energy.
    #[verifier::rlimit(60)]
    pub fn delta_energy(&self, state: &IsingState, mv: u32) -> (de: i64)
        requires
            self.wf(),
            state.wf(),
            state.arr@.len() == self.nspins(),
            mv < state.arr@.len(),
        ensures
            de == self.dspec(state.arr@, mv as int),
            self.espec(state.arr@.update(mv as int, (-state.arr@[mv as int]) as i8)) == self.espec(
                state.arr@,
            ) + de,
            abs1(de as int) <= 2 * self.total_weight(),
    {
        let ghost s = state.arr@;
        let n = self.bias.len();
        let i = mv as usize;
        let row = &self.coupling_vecs[i];
        let m = row.len();
        let mut part: i64 = 0;
        proof {
            assert(row@ == self.row(i as int));
            assert(row_wf(self.row(i as int), i as int, n as int));
            lemma_sparse_dense_abs(row@, i as int, n as int);
            assert(row@.take(0) =~= Seq::<(u32, i64)>::empty());
            lemma_weight_mono(*self, i as int + 1, self.nspins());
            lemma_weight_mono(*self, 0, i as int);
            lemma_dense_abs_nonneg(self.row(i as int), self.nspins());
        }
        for t in 0..m
            invariant
                self.wf(),
                state.wf(),
                state.arr@.len() == n,
                n == self.nspins(),
                s == state.arr@,
                0 <= (i as int) < n,
                row@ == self.row(i as int),
                m == row@.len(),
                part == sparse_fsum(row@.take(t as int), s, -1),
                abs1(part as int) <= sparse_abs(row@.take(t as int)),
                sparse_abs(row@) == dense_abs(row@, n as int),
                dense_abs(row@, n as int) <= W_MAX as int,
                abs1(self.hb(i as int)) <= W_MAX as int,
        {
            let (j, kv) = row[t];
            proof {
                lemma_sparse_abs_prefix(row@, t as int + 1);
                assert(row@.take(t as int + 1).drop_last() =~= row@.take(t as int));
                assert(row@.take(t as int + 1).last() == row@[t as int]);
            }
            let sj = state.arr[j as usize];
            proof {
                assert(is_spin(s[j as int]));
                lemma_mul_spin_cases(kv as int, sv(s, j as int));
            }
            part = part + (if sj == 1 {
                kv
            } else {
                -kv
            });
        }
        proof {
            assert(row@.take(m as int) =~= row@);
            lemma_sparse_dense_fsum(row@, s, i as int, n as int, -1);
        }
        let hi = self.bias[i];
        let si = state.arr[i];
        let term = hi + part;
        proof {
            assert(term == self.field(s, i as int));
            assert(is_spin(s[i as int]));
            lemma_mul_spin_cases(-2 * (term as int), sv(s, i as int));
            assert(-2 * sv(s, i as int) * (term as int) == (-2 * (term as int)) * sv(
                s,
                i as int,
            )) by (nonlinear_arith);
            lemma_flip_delta(*self, s, i as int);
        }
        let de = if si == 1 {
            -2 * term
        } else {
            2 * term
        };
        proof {
            assert(de == self.dspec(s, i as int));
        }
        de
    }

    /// Dot product of susceptibility row `k` with a site overlap
    /// vector.
    pub fn suscept(&self, overlap: &Vec<i8>, k: usize) -> (chi: i64)
        requires
            self.wf(),
            k < self.suscept_coefs@.len(),
            overlap@.len() == self.nspins(),
            all_spins(overlap@),
        ensures
            chi == suscept_spec(self.suscept_coefs@[k as int]@, overlap@, self.nspins()),
    {
        let row = &self.suscept_coefs[k];
        let n = row.len();
        let mut chi: i64 = 0;
        for i in 0..n
            invariant
                self.wf(),
                0 <= (k as int) < self.suscept_coefs@.len(),
                row@ == self.suscept_coefs@[k as int]@,
                n == row@.len() == self.nspins(),
                overlap@.len() == n,
                all_spins(overlap@),
                chi == suscept_spec(row@, overlap@, i as int),
                abs1(chi as int) <= (i as int) * SUS_MAX as int,
        {
            let w = row[i];
            let q = overlap[i];
            proof {
                assert(is_spin(overlap@[i as int]));
                lemma_mul_spin_cases(w as int, sv(overlap@, i as int));
                lemma_mul_by_spin(w as int, sv(overlap@, i as int));
                assert((i as int) * SUS_MAX as int + SUS_MAX as int == (i as int + 1)
                    * SUS_MAX as int) by (nonlinear_arith);
                assert((i as int + 1) * SUS_MAX as int <= N_MAX as int * SUS_MAX as int)
                    by (nonlinear_arith)
                    requires
                        i as int + 1 <= N_MAX as int,
                ;
            }
            chi = chi + (if q == 1 {
                w
            } else {
                -w
            });
        }
        chi
    }
}

/// Multiplying by a spin either keeps or negates the value.
pub proof fn lemma_mul_spin_cases(x: int, p: int)
    by (nonlinear_arith)
    requires
        p == 1 || p == -1,
    ensures
        p == 1 ==> x * p == x,
        p == -1 ==> x * p == -x,
{
}

/// Dot product of a coefficient row with a spin vector, over the first
/// `k` sites.
pub open spec fn suscept_spec(w: Seq<i64>, q: Seq<i8>, k: int) -> int
    decreases k,
{
    if k <= 0 {
        0
    } else {
        suscept_spec(w, q, k - 1) + w[k - 1] * sv(q, k - 1)
    }
}

} // verus!
