//! Result records: the ground-state log of a run and the
//! capacity-bounded thermal sample store with its compression tiers.
use vstd::prelude::*;

use crate::instance::{suscept_spec, BqmIsingInstance};
use crate::params::PtIcmParams;
use crate::pt::PTState;
use crate::spins::{overlap_spec, packed_bit_u8, IsingState};
use crate::sums::{all_spins, is_spin, sv};

verus! {

/// The ground-state log and bookkeeping of one PT-ICM run.
#[derive(Clone)]
pub struct PtIcmMinResults {
    /// The parameters the run was started with.
    pub params: PtIcmParams,
    /// Wall-clock duration of the sweep loop, in microseconds.
    pub timing: u64,
    /// Sweep indices at which a new global minimum was found.
    pub gs_time_steps: Vec<u32>,
    /// The matching energies, strictly decreasing, Q47.16.
    pub gs_energies: Vec<i64>,
    /// The matching bit-packed states, 64 spins per word.
    pub gs_states: Vec<Vec<u64>>,
    /// Number of measurement passes taken.
    pub num_measurements: u32,
    /// Number of spins of the instance.
    pub instance_size: u32,
    /// Accepted PT swaps per ladder rung, summed over chains.
    pub acceptance_counts: Vec<u32>,
}

impl PtIcmMinResults {
    /// An empty record for a run over `num_betas` rungs.
    pub fn new(params: PtIcmParams, num_betas: u32, instance_size: u32) -> (r: PtIcmMinResults)
        ensures
            r.params == params,
            r.timing == 0,
            r.gs_time_steps@.len() == 0,
            r.gs_energies@.len() == 0,
            r.gs_states@.len() == 0,
            r.num_measurements == 0,
            r.instance_size == instance_size,
            r.acceptance_counts@.len() == num_betas,
            forall|k: int| 0 <= k < num_betas ==> #[trigger] r.acceptance_counts@[k] == 0,
    {
        let mut acceptance_counts: Vec<u32> = Vec::new();
        let nb = num_betas as usize;
        for k in 0..nb
            invariant
                acceptance_counts@.len() == k,
                forall|u: int| 0 <= u < k ==> #[trigger] acceptance_counts@[u] == 0,
        {
            acceptance_counts.push(0);
        }
        PtIcmMinResults {
            params,
            timing: 0,
            gs_time_steps: Vec::new(),
            gs_energies: Vec::new(),
            gs_states: Vec::new(),
            num_measurements: 0,
            instance_size,
            acceptance_counts,
        }
    }
}

/// `b` is the byte packing of the spin vector `s`: one bit per spin,
/// +1 to 0 and -1 to 1, trailing bits clear.
pub open spec fn packs(b: Seq<u8>, s: Seq<i8>) -> bool {
    &&& b.len() == (s.len() + 7) / 8
    &&& forall|i: int| 0 <= i < s.len() ==> packed_bit_u8(b, i) == (s[i] < 0)
    &&& forall|i: int| s.len() <= i < b.len() * 8 ==> !packed_bit_u8(b, i)
}

/// The cached energies of the states at rung `i` across the chains.
pub open spec fn energies_row(chains: Seq<PTState>, i: int) -> Seq<i64> {
    Seq::new(chains.len(), |j: int| chains[j].states@[i].energy)
}

/// The site-wise product of two spin vectors.
pub open spec fn overlap_vec(a: Seq<i8>, b: Seq<i8>) -> Seq<i8> {
    Seq::new(a.len(), |t: int| (sv(a, t) * sv(b, t)) as i8)
}

/// The pair overlaps at rung `i`: chains are paired (0,1), (2,3), ...
pub open spec fn overlaps_row(chains: Seq<PTState>, i: int, n: int) -> Seq<i32> {
    Seq::new(
        chains.len() / 2,
        |j: int|
            overlap_spec(
                chains[2 * j].states@[i].arr@,
                chains[2 * j + 1].states@[i].arr@,
                n,
            ) as i32,
    )
}

/// The susceptibilities of coefficient row `k` at rung `i`, one per
/// chain pair.
pub open spec fn suscept_row(
    chains: Seq<PTState>,
    i: int,
    k: int,
    inst: BqmIsingInstance,
) -> Seq<i64> {
    Seq::new(
        chains.len() / 2,
        |j: int|
            suscept_spec(
                inst.suscept_coefs@[k]@,
                overlap_vec(chains[2 * j].states@[i].arr@, chains[2 * j + 1].states@[i].arr@),
                inst.nspins(),
            ) as i64,
    )
}

/// Per-temperature thermal observables and recorded states, with a
/// compression tier for the states: tier 0 keeps every rung, tier 1
/// the coldest half (stored coldest first), tier 2 only the coldest.
#[derive(Clone)]
pub struct PtIcmThermalSamples {
    /// Compression tier for recorded states: 0, 1 or 2.
    pub compression_level: u8,
    /// Number of spins.
    pub instance_size: u64,
    /// The ladder, in Q47.16.
    pub beta_arr: Vec<i64>,
    /// Recorded bit-packed states, per bucket.
    pub samples: Vec<Vec<Vec<u8>>>,
    /// Recorded energies per rung, Q47.16.
    pub e: Vec<Vec<i64>>,
    /// Recorded pair overlaps per rung.
    pub q: Vec<Vec<i32>>,
    /// Recorded susceptibilities per rung and coefficient row.
    pub suscept: Vec<Vec<Vec<i64>>>,
}

/// Number of state buckets a compression tier keeps out of `t` rungs.
pub open spec fn tier_buckets(level: u8, t: int) -> int {
    if level == 0 {
        t
    } else if level == 1 {
        t / 2
    } else {
        1
    }
}

impl PtIcmThermalSamples {
    /// Shape well-formedness over `t` rungs and `nchi` coefficient
    /// rows.
    pub open spec fn store_wf(self, t: int, nchi: int) -> bool {
        &&& self.beta_arr@.len() == t
        &&& self.e@.len() == t
        &&& self.q@.len() == t
        &&& self.suscept@.len() == t
        &&& forall|i: int| 0 <= i < t ==> (#[trigger] self.suscept@[i])@.len() == nchi
        &&& self.samples@.len() == tier_buckets(self.compression_level, t)
        &&& t >= 1
    }

    /// An empty store for the given ladder and tier. The capacity
    /// hints carry no meaning for the contents: the store grows as
    /// needed and nothing bounds what is recorded.
    pub fn new(
        beta_arr: &Vec<i64>,
        instance_size: u64,
        capacity: usize,
        samp_capacity: usize,
        nchi: usize,
        compression_level: u8,
    ) -> (r: PtIcmThermalSamples)
        requires
            beta_arr@.len() >= 1,
        ensures
            r.store_wf(beta_arr@.len() as int, nchi as int),
            r.compression_level == compression_level,
            r.instance_size == instance_size,
            r.beta_arr@ == beta_arr@,
            forall|i: int| 0 <= i < r.e@.len() ==> (#[trigger] r.e@[i])@.len() == 0,
            forall|i: int| 0 <= i < r.q@.len() ==> (#[trigger] r.q@[i])@.len() == 0,
            forall|i: int, k: int|
                0 <= i < r.suscept@.len() && 0 <= k < nchi ==> (#[trigger] r.suscept@[i]@[k])@.len()
                    == 0,
            forall|i: int| 0 <= i < r.samples@.len() ==> (#[trigger] r.samples@[i])@.len() == 0,
    {
        let num_betas = beta_arr.len();
        let mut beta_copy: Vec<i64> = Vec::new();
        let mut e: Vec<Vec<i64>> = Vec::new();
        let mut q: Vec<Vec<i32>> = Vec::new();
        let mut suscept: Vec<Vec<Vec<i64>>> = Vec::new();
        let _ = capacity;
        let _ = samp_capacity;
        for i in 0..num_betas
            invariant
                num_betas == beta_arr@.len(),
                beta_copy@.len() == i,
                e@.len() == i,
                q@.len() == i,
                suscept@.len() == i,
                forall|u: int| 0 <= u < i ==> #[trigger] beta_copy@[u] == beta_arr@[u],
                forall|u: int| 0 <= u < i ==> (#[trigger] e@[u])@.len() == 0,
                forall|u: int| 0 <= u < i ==> (#[trigger] q@[u])@.len() == 0,
                forall|u: int| 0 <= u < i ==> (#[trigger] suscept@[u])@.len() == nchi,
                forall|u: int, k: int|
                    0 <= u < i && 0 <= k < nchi ==> (#[trigger] suscept@[u]@[k])@.len() == 0,
        {
            beta_copy.push(beta_arr[i]);
            e.push(Vec::new());
            q.push(Vec::new());
            let mut chis: Vec<Vec<i64>> = Vec::new();
            let nk = nchi;
            for k in 0..nk
                invariant
                    chis@.len() == k,
                    forall|u: int| 0 <= u < k ==> (#[trigger] chis@[u])@.len() == 0,
            {
                chis.push(Vec::new());
            }
            suscept.push(chis);
        }
        let num_buckets: usize = if compression_level == 0 {
            num_betas
        } else if compression_level == 1 {
            num_betas / 2
        } else {
            1
        };
        let mut samples: Vec<Vec<Vec<u8>>> = Vec::new();
        for i in 0..num_buckets
            invariant
                samples@.len() == i,
                forall|u: int| 0 <= u < i ==> (#[trigger] samples@[u])@.len() == 0,
        {
            samples.push(Vec::new());
        }
        proof {
            assert(beta_copy@ =~= beta_arr@);
        }
        PtIcmThermalSamples {
            compression_level,
            instance_size,
            beta_arr: beta_copy,
            samples,
            e,
            q,
            suscept,
        }
    }

    /// One measurement pass: append every chain's energy at every
    /// rung, every adjacent chain pair's overlap, and, where
    /// coefficient rows are present, their susceptibilities.
    pub fn measure(&mut self, pt_state: &Vec<PTState>, instance: &BqmIsingInstance)
        requires
            instance.wf(),
            pt_state@.len() >= 1,
            forall|c: int| 0 <= c < pt_state@.len() ==> (#[trigger] pt_state@[c]).wf(*instance),
            forall|c: int| 0 <= c < pt_state@.len() ==> (#[trigger] pt_state@[c]).caches_ready(),
            forall|c: int|
                0 <= c < pt_state@.len() ==> (#[trigger] pt_state@[c]).nt() == old(
                    self,
                ).e@.len(),
            old(self).store_wf(old(self).e@.len() as int, instance.suscept_coefs@.len() as int),
        ensures
            final(self).store_wf(
                old(self).e@.len() as int,
                instance.suscept_coefs@.len() as int,
            ),
            final(self).compression_level == old(self).compression_level,
            final(self).beta_arr == old(self).beta_arr,
            final(self).samples == old(self).samples,
            final(self).instance_size == old(self).instance_size,
            forall|i: int|
                0 <= i < old(self).e@.len() ==> (#[trigger] final(self).e@[i])@ == old(
                    self,
                ).e@[i]@ + energies_row(pt_state@, i),
            forall|i: int|
                0 <= i < old(self).q@.len() ==> (#[trigger] final(self).q@[i])@ == old(
                    self,
                ).q@[i]@ + overlaps_row(pt_state@, i, instance.nspins()),
            forall|i: int, k: int|
                0 <= i < old(self).suscept@.len() && 0 <= k < instance.suscept_coefs@.len()
                    ==> (#[trigger] final(self).suscept@[i]@[k])@ == old(self).suscept@[i]@[k]@
                    + suscept_row(pt_state@, i, k, *instance),
    {
        let num_chains = pt_state.len();
        let num_betas = self.e.len();
        let nchi = instance.suscept_coefs.len();
        let ghost chains = pt_state@;
        let ghost e0 = self.e@;
        let ghost q0 = self.q@;
        let ghost x0 = self.suscept@;
        for i in 0..num_betas
            invariant
                instance.wf(),
                chains == pt_state@,
                num_chains == chains.len() >= 1,
                forall|c: int| 0 <= c < chains.len() ==> (#[trigger] chains[c]).wf(*instance),
                forall|c: int|
                    0 <= c < chains.len() ==> (#[trigger] chains[c]).caches_ready(),
                forall|c: int|
                    0 <= c < chains.len() ==> (#[trigger] chains[c]).nt() == num_betas,
                num_betas == e0.len(),
                nchi == instance.suscept_coefs@.len(),
                self.e@.len() == num_betas,
                self.q@.len() == num_betas,
                self.suscept@.len() == num_betas,
                self.beta_arr == old(self).beta_arr,
                self.samples == old(self).samples,
                self.compression_level == old(self).compression_level,
                self.instance_size == old(self).instance_size,
                e0 == old(self).e@,
                q0 == old(self).q@,
                x0 == old(self).suscept@,
                forall|u: int|
                    0 <= u < i ==> (#[trigger] self.e@[u])@ == e0[u]@ + energies_row(chains, u),
                forall|u: int| i <= u < num_betas ==> #[trigger] self.e@[u] == e0[u],
                forall|u: int|
                    0 <= u < i ==> (#[trigger] self.q@[u])@ == q0[u]@ + overlaps_row(
                        chains,
                        u,
                        instance.nspins(),
                    ),
                forall|u: int| i <= u < num_betas ==> #[trigger] self.q@[u] == q0[u],
                forall|u: int, k: int|
                    0 <= u < i && 0 <= k < nchi ==> (#[trigger] self.suscept@[u]@[k])@
                        == x0[u]@[k]@ + suscept_row(chains, u, k, *instance),
                forall|u: int| i <= u < num_betas ==> #[trigger] self.suscept@[u] == x0[u],
                forall|u: int|
                    0 <= u < num_betas ==> (#[trigger] self.suscept@[u])@.len() == nchi,
        {
            // Energies of every chain at this rung.
            let mut erow = self.e.remove(i);
            let ghost erow0 = erow@;
            for j in 0..num_chains
                invariant
                    chains == pt_state@,
                    num_chains == chains.len(),
                    forall|c: int|
                        0 <= c < chains.len() ==> (#[trigger] chains[c]).nt() == num_betas,
                    0 <= (i as int) < num_betas,
                    erow@.len() == erow0.len() + j,
                    forall|u: int| 0 <= u < erow0.len() ==> #[trigger] erow@[u] == erow0[u],
                    forall|u: int|
                        0 <= u < j ==> #[trigger] erow@[erow0.len() + u] == chains[u].states@[i as int].energy,
            {
                let ev = pt_state[j].states[i].energy;
                erow.push(ev);
            }
            proof {
                assert forall|w: int| 0 <= w < erow@.len() implies erow@[w] == (erow0
                    + energies_row(chains, i as int))[w] by {
                    if w >= erow0.len() {
                        assert(erow@[erow0.len() + (w - erow0.len())] == chains[w
                            - erow0.len()].states@[i as int].energy);
                    }
                }
                assert(erow@ =~= erow0 + energies_row(chains, i as int));
            }
            self.e.insert(i, erow);
            // Pair overlaps and susceptibilities.
            let mut qrow = self.q.remove(i);
            let ghost qrow0 = qrow@;
            let mut xrow = self.suscept.remove(i);
            let ghost xrow0 = xrow@;
            let pairs = num_chains / 2;
            for j in 0..pairs
                invariant
                    instance.wf(),
                    chains == pt_state@,
                    num_chains == chains.len(),
                    pairs == num_chains / 2,
                    forall|c: int| 0 <= c < chains.len() ==> (#[trigger] chains[c]).wf(*instance),
                    forall|c: int|
                        0 <= c < chains.len() ==> (#[trigger] chains[c]).nt() == num_betas,
                    0 <= (i as int) < num_betas,
                    nchi == instance.suscept_coefs@.len(),
                    qrow@.len() == qrow0.len() + j,
                    forall|u: int| 0 <= u < qrow0.len() ==> #[trigger] qrow@[u] == qrow0[u],
                    forall|u: int|
                        0 <= u < j ==> #[trigger] qrow@[qrow0.len() + u] == overlaps_row(
                            chains,
                            i as int,
                            instance.nspins(),
                        )[u],
                    xrow@.len() == nchi,
                    xrow0.len() == nchi,
                    forall|k: int, u: int|
                        0 <= k < nchi && 0 <= u < xrow0[k]@.len() ==> (#[trigger] xrow@[k]@[u])
                            == xrow0[k]@[u],
                    forall|k: int|
                        0 <= k < nchi ==> (#[trigger] xrow@[k])@.len() == xrow0[k]@.len() + j,
                    forall|k: int, u: int|
                        0 <= k < nchi && 0 <= u < j ==> (#[trigger] xrow@[k]@[xrow0[k]@.len()
                            + u]) == suscept_row(chains, i as int, k, *instance)[u],
            {
                let s1 = &pt_state[2 * j];
                let s2 = &pt_state[2 * j + 1];
                let qv = s1.states[i].overlap(&s2.states[i]);
                qrow.push(qv as i32);
                proof {
                    assert(qrow@.last() == overlaps_row(chains, i as int, instance.nspins())[
                    j as int]);
                }
                if nchi > 0 {
                    // Site-wise overlap vector of the pair.
                    let n = instance.size();
                    let mut ovec: Vec<i8> = Vec::new();
                    for t in 0..n
                        invariant
                            chains == pt_state@,
                            0 <= (i as int) < num_betas,
                            0 <= 2 * (j as int) + 1 < chains.len(),
                            forall|c: int|
                                0 <= c < chains.len() ==> (#[trigger] chains[c]).wf(*instance),
                            forall|c: int|
                                0 <= c < chains.len() ==> (#[trigger] chains[c]).nt()
                                    == num_betas,
                            n == instance.nspins(),
                            instance.wf(),
                            s1 == &pt_state[2 * (j as int)],
                            s2 == &pt_state[2 * (j as int) + 1],
                            ovec@.len() == t,
                            forall|u: int|
                                0 <= u < t ==> #[trigger] ovec@[u] == overlap_vec(
                                    chains[2 * (j as int)].states@[i as int].arr@,
                                    chains[2 * (j as int) + 1].states@[i as int].arr@,
                                )[u],
                            all_spins(ovec@),
                    {
                        let a = s1.states[i].arr[t];
                        let b = s2.states[i].arr[t];
                        proof {
                            assert(is_spin(chains[2 * (j as int)].states@[i as int].arr@[t as int]));
                            assert(is_spin(
                                chains[2 * (j as int) + 1].states@[i as int].arr@[t as int],
                            ));
                            let x = chains[2 * (j as int)].states@[i as int].arr@[t as int] as int;
                            let y = chains[2 * (j as int) + 1].states@[i as int].arr@[t as int]
                                as int;
                            assert(x * y == if x == y {
                                1int
                            } else {
                                -1int
                            }) by (nonlinear_arith)
                                requires
                                    (x == 1 || x == -1) && (y == 1 || y == -1),
                            ;
                        }
                        ovec.push(
                            if a == b {
                                1
                            } else {
                                -1
                            },
                        );
                    }
                    proof {
                        assert(ovec@ =~= overlap_vec(
                            chains[2 * (j as int)].states@[i as int].arr@,
                            chains[2 * (j as int) + 1].states@[i as int].arr@,
                        ));
                    }
                    for k in 0..nchi
                        invariant
                            instance.wf(),
                            chains == pt_state@,
                            0 <= (i as int) < num_betas,
                            0 <= (j as int) < chains.len() / 2,
                            nchi == instance.suscept_coefs@.len(),
                            ovec@ == overlap_vec(
                                chains[2 * (j as int)].states@[i as int].arr@,
                                chains[2 * (j as int) + 1].states@[i as int].arr@,
                            ),
                            ovec@.len() == instance.nspins(),
                            all_spins(ovec@),
                            xrow@.len() == nchi,
                            xrow0.len() == nchi,
                            forall|k2: int, u: int|
                                0 <= k2 < nchi && 0 <= u < xrow0[k2]@.len() ==> (
                                #[trigger] xrow@[k2]@[u]) == xrow0[k2]@[u],
                            forall|k2: int|
                                k <= k2 < nchi ==> (#[trigger] xrow@[k2])@.len() == xrow0[k2]@.len()
                                    + j,
                            forall|k2: int|
                                0 <= k2 < k ==> (#[trigger] xrow@[k2])@.len() == xrow0[k2]@.len()
                                    + j + 1,
                            forall|k2: int, u: int|
                                0 <= k2 < nchi && 0 <= u < j ==> (
                                #[trigger] xrow@[k2]@[xrow0[k2]@.len() + u]) == suscept_row(
                                    chains,
                                    i as int,
                                    k2,
                                    *instance,
                                )[u],
                            forall|k2: int|
                                0 <= k2 < k ==> (#[trigger] xrow@[k2]@[xrow0[k2]@.len()
                                    + (j as int)]) == suscept_row(
                                    chains,
                                    i as int,
                                    k2,
                                    *instance,
                                )[j as int],
                    {
                        let chi = instance.suscept(&ovec, k);
                        let mut krow = xrow.remove(k);
                        krow.push(chi);
                        xrow.insert(k, krow);
                        proof {
                            assert(xrow@[k as int]@.last() == suscept_row(
                                chains,
                                i as int,
                                k as int,
                                *instance,
                            )[j as int]);
                        }
                    }
                }
                proof {
                    if nchi == 0 {
                        assert(forall|k2: int|
                            0 <= k2 < nchi ==> (#[trigger] xrow@[k2])@.len() == xrow0[k2]@.len() + (
                            j as int) + 1);
                    }
                }
            }
            proof {
                assert forall|w: int| 0 <= w < qrow@.len() implies qrow@[w] == (qrow0
                    + overlaps_row(chains, i as int, instance.nspins()))[w] by {
                    if w >= qrow0.len() {
                        assert(qrow@[qrow0.len() + (w - qrow0.len())] == overlaps_row(
                            chains,
                            i as int,
                            instance.nspins(),
                        )[w - qrow0.len()]);
                    }
                }
                assert(qrow@ =~= qrow0 + overlaps_row(chains, i as int, instance.nspins()));
                assert forall|k: int| 0 <= k < nchi implies (#[trigger] xrow@[k])@ == xrow0[k]@
                    + suscept_row(chains, i as int, k, *instance) by {
                    assert forall|w: int| 0 <= w < xrow@[k]@.len() implies xrow@[k]@[w] == (
                    xrow0[k]@ + suscept_row(chains, i as int, k, *instance))[w] by {
                        if w >= xrow0[k]@.len() {
                            assert(xrow@[k]@[xrow0[k]@.len() + (w - xrow0[k]@.len())]
                                == suscept_row(chains, i as int, k, *instance)[w
                                - xrow0[k]@.len()]);
                        }
                    }
                    assert(xrow@[k]@ =~= xrow0[k]@ + suscept_row(chains, i as int, k, *instance));
                }
            }
            self.q.insert(i, qrow);
            self.suscept.insert(i, xrow);
        }
    }

    /// One state-recording pass under the store's compression tier.
    pub fn sample_states(&mut self, pt_state: &Vec<PTState>)
        requires
            pt_state@.len() >= 1,
            forall|c: int| 0 <= c < pt_state@.len() ==> (#[trigger] pt_state@[c]).states@.len() == old(self).e@.len(),
            forall|c: int, i: int|
                0 <= c < pt_state@.len() && 0 <= i < old(self).e@.len() ==> (
                #[trigger] pt_state@[c].states@[i]).arr@.len() < 0x1000_0000,
            old(self).e@.len() >= 1,
            old(self).samples@.len() == tier_buckets(
                old(self).compression_level,
                old(self).e@.len() as int,
            ),
        ensures
            final(self).compression_level == old(self).compression_level,
            final(self).beta_arr == old(self).beta_arr,
            final(self).e == old(self).e,
            final(self).q == old(self).q,
            final(self).suscept == old(self).suscept,
            final(self).instance_size == old(self).instance_size,
            final(self).samples@.len() == old(self).samples@.len(),
            forall|b: int|
                0 <= b < old(self).samples@.len() ==> (#[trigger] final(self).samples@[b])@.len()
                    == old(self).samples@[b]@.len() + pt_state@.len(),
            forall|b: int, j: int|
                0 <= b < old(self).samples@.len() && 0 <= j < pt_state@.len() ==> packs(
                    (#[trigger] final(self).samples@[b]@[old(self).samples@[b]@.len() + j])@,
                    pt_state@[j].states@[sampled_rung(
                        old(self).compression_level,
                        old(self).e@.len() as int,
                        b,
                    )].arr@,
                ),
    {
        let num_chains = pt_state.len();
        let num_betas = self.e.len();
        let level = self.compression_level;
        let num_buckets = self.samples.len();
        let ghost chains = pt_state@;
        let ghost s0 = self.samples@;
        for b in 0..num_buckets
            invariant
                chains == pt_state@,
                num_chains == chains.len() >= 1,
                num_betas == self.e@.len() >= 1,
                level == self.compression_level,
                num_buckets == s0.len() == tier_buckets(level as u8, num_betas as int),
                forall|c: int|
                    0 <= c < chains.len() ==> (#[trigger] chains[c]).states@.len() == num_betas,
                forall|c: int, i: int|
                    0 <= c < chains.len() && 0 <= i < num_betas ==> (
                    #[trigger] chains[c].states@[i]).arr@.len() < 0x1000_0000,
                self.samples@.len() == num_buckets,
                s0 == old(self).samples@,
                self.e == old(self).e,
                self.q == old(self).q,
                self.suscept == old(self).suscept,
                self.beta_arr == old(self).beta_arr,
                self.compression_level == old(self).compression_level,
                self.instance_size == old(self).instance_size,
                forall|u: int| b <= u < num_buckets ==> #[trigger] self.samples@[u] == s0[u],
                forall|u: int|
                    0 <= u < b ==> (#[trigger] self.samples@[u])@.len() == s0[u]@.len()
                        + num_chains,
                forall|u: int, j: int|
                    0 <= u < b && 0 <= j < num_chains ==> packs(
                        (#[trigger] self.samples@[u]@[s0[u]@.len() + j])@,
                        chains[j].states@[sampled_rung(level as u8, num_betas as int, u)].arr@,
                    ),
        {
            let rung: usize = if level == 0 {
                b
            } else {
                num_betas - 1 - b
            };
            proof {
                assert(rung as int == sampled_rung(level as u8, num_betas as int, b as int));
            }
            let mut bucket = self.samples.remove(b);
            let ghost b0 = bucket@;
            for j in 0..num_chains
                invariant
                    chains == pt_state@,
                    num_chains == chains.len(),
                    forall|c: int|
                        0 <= c < chains.len() ==> (#[trigger] chains[c]).states@.len()
                            == num_betas,
                    forall|c: int, i: int|
                        0 <= c < chains.len() && 0 <= i < num_betas ==> (
                        #[trigger] chains[c].states@[i]).arr@.len() < 0x1000_0000,
                    0 <= (rung as int) < num_betas,
                    bucket@.len() == b0.len() + j,
                    forall|u: int| 0 <= u < b0.len() ==> #[trigger] bucket@[u] == b0[u],
                    forall|u: int|
                        0 <= u < j ==> packs(
                            (#[trigger] bucket@[b0.len() + u])@,
                            chains[u].states@[rung as int].arr@,
                        ),
            {
                let bytes = pt_state[j].states[rung].as_bytes();
                bucket.push(bytes);
            }
            self.samples.insert(b, bucket);
        }
    }
}

/// Which rung a bucket records under a compression tier: every rung
/// under tier 0; under the others, counted down from the coldest.
pub open spec fn sampled_rung(level: u8, t: int, b: int) -> int {
    if level == 0 {
        b
    } else {
        t - 1 - b
    }
}

} // verus!
