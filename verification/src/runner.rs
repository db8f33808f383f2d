//! The PT-ICM runner: orchestrates cluster moves, per-chain sweeps
//! with the parallel-tempering pass, measurements and ground-state
//! tracking over a fixed number of sweeps.
use vstd::prelude::*;

use rand_xoshiro::Xoshiro256PlusPlus;

use crate::clock::{duration_micros, time_elapsed, time_now};
use crate::errors::PtError;
use crate::graph::{graph_matches, CsrGraph};
use crate::icm::houdayer_cluster_move;
use crate::instance::BqmIsingInstance;
use crate::params::{BetaOptions, PtIcmParams, T_MAX};
use crate::pt::{
    betas_wf, chain_sweep, chain_sweep_post, chain_sweep_pre, par_chain_sweeps, PTState,
    BETA_MAX,
};
use crate::results::{energies_row, overlaps_row, suscept_row, PtIcmMinResults, PtIcmThermalSamples};
use crate::rng::{entropy_u64, rng_below, rng_clone, rng_from_seed, rng_jump};
use crate::spins::{decoded_bits_u64, lemma_u64_round_trip, IsingState};

verus! {

/// A fresh uniformly random spin state with its energy cache filled.
pub fn rand_ising_state(
    n: u32,
    instance: &BqmIsingInstance,
    rng: &mut Xoshiro256PlusPlus,
) -> (st: IsingState)
    requires
        instance.wf(),
        n == instance.nspins(),
    ensures
        st.wf(),
        st.arr@.len() == n,
        st.energy_init,
        instance.cache_ok(st),
{
    let mut arr: Vec<i8> = Vec::new();
    for _i in 0..n
        invariant
            arr@.len() == _i,
            crate::sums::all_spins(arr@),
    {
        let b = rng_below(rng, 2);
        arr.push(
            if b == 0 {
                1i8
            } else {
                -1i8
            },
        );
    }
    let mut st = IsingState { arr, energy: 0, energy_init: false };
    let e = instance.energy_ref(&st);
    st.energy = e;
    st.energy_init = true;
    st
}

/// Minimum of the cached energies over the first `k` rungs of a chain.
pub open spec fn rung_min(c: PTState, k: int) -> int
    decreases k,
{
    if k <= 1 {
        c.states@[0].energy as int
    } else if rung_min(c, k - 1) <= c.states@[k - 1].energy {
        rung_min(c, k - 1)
    } else {
        c.states@[k - 1].energy as int
    }
}

/// Minimum of the cached energies over the first `c` chains.
pub open spec fn group_min(st: Seq<PTState>, c: int) -> int
    decreases c,
{
    if c <= 1 {
        rung_min(st[0], st[0].states@.len() as int)
    } else if group_min(st, c - 1) <= rung_min(st[c - 1], st[c - 1].states@.len() as int) {
        group_min(st, c - 1)
    } else {
        rung_min(st[c - 1], st[c - 1].states@.len() as int)
    }
}

/// Swap-acceptance counts at rung `k`, summed over the first `c`
/// chains.
pub open spec fn acc_sum(st: Seq<PTState>, k: int, c: int) -> int
    decreases c,
{
    if c <= 0 {
        0
    } else {
        acc_sum(st, k, c - 1) + st[c - 1].num_acceptances@[k]
    }
}

/// The ground-state log is consistent: parallel arrays, strictly
/// decreasing energies, and the tracked minimum is the last entry.
pub open spec fn gs_sync(r: PtIcmMinResults, min_e: Option<i64>) -> bool {
    &&& r.gs_energies@.len() == r.gs_time_steps@.len()
    &&& r.gs_energies@.len() == r.gs_states@.len()
    &&& forall|a: int, b: int|
        0 <= a < b < r.gs_energies@.len() ==> #[trigger] r.gs_energies@[a]
            > #[trigger] r.gs_energies@[b]
    &&& forall|a: int, b: int|
        0 <= a < b < r.gs_time_steps@.len() ==> #[trigger] r.gs_time_steps@[a]
            < #[trigger] r.gs_time_steps@[b]
    &&& match min_e {
        Option::None => r.gs_energies@.len() == 0,
        Option::Some(m) => r.gs_energies@.len() > 0 && r.gs_energies@.last() == m,
    }
}

/// The headroom a chain's counters need for `sweeps` more sweeps.
pub open spec fn chain_budget(c: PTState, sweeps: int) -> bool {
    &&& c.round_trips + 2 * sweeps <= u32::MAX
    &&& forall|k: int|
        0 <= k < c.nt() ==> #[trigger] c.num_acceptances@[k] + sweeps <= u32::MAX
    &&& forall|k: int|
        0 <= k < c.nt() ==> (#[trigger] c.diffusion_hist@[k]).0 + sweeps <= u64::MAX
            && c.diffusion_hist@[k].1 + sweeps <= u64::MAX
}

/// Whether sweep `i` takes a measurement under the given stride: at
/// or past the warm-up boundary, on the stride from it, or on the
/// last sweep.
pub open spec fn measure_due(stride: Option<u32>, i: int, meas_init: int, ns: int) -> bool {
    i >= meas_init && match stride {
        Option::Some(s) => (i - meas_init) % (s as int) == 0 || i == ns - 1,
        Option::None => false,
    }
}

/// How many of the first `i` sweeps take a measurement.
pub open spec fn meas_count(stride: Option<u32>, meas_init: int, ns: int, i: int) -> int
    decreases i,
{
    if i <= 0 {
        0
    } else {
        meas_count(stride, meas_init, ns, i - 1) + if measure_due(stride, i - 1, meas_init, ns) {
            1int
        } else {
            0int
        }
    }
}

/// The measurement count never exceeds the sweep count.
pub proof fn lemma_meas_count_bounds(stride: Option<u32>, meas_init: int, ns: int, i: int)
    requires
        i >= 0,
    ensures
        0 <= meas_count(stride, meas_init, ns, i) <= i,
    decreases i,
{
    if i > 0 {
        lemma_meas_count_bounds(stride, meas_init, ns, i - 1);
    }
}

/// The PT-ICM engine bound to one instance and one parameter record.
pub struct PtIcmRunner<'a> {
    /// The run parameters.
    pub params: &'a PtIcmParams,
    /// The instance being sampled.
    pub instance: &'a BqmIsingInstance,
    /// The instance's connectivity, for the cluster move.
    pub g: CsrGraph,
    /// The materialized temperature ladder.
    pub beta_vec: Vec<i64>,
    /// First sweep index at which measurements are taken.
    pub meas_init: u32,
    /// First ladder rung at which cluster moves apply.
    pub lo_beta_idx: usize,
}

impl<'a> PtIcmRunner<'a> {
    /// Internal consistency of a constructed runner.
    pub open spec fn wf(self) -> bool {
        &&& self.instance.wf()
        &&& self.params.wf()
        &&& betas_wf(self.beta_vec@)
        &&& self.beta_vec@.len() == self.params.beta.spec_len()
        &&& self.beta_vec@.len() <= T_MAX
        &&& graph_matches(self.g, *self.instance)
        &&& (self.lo_beta_idx as int) < self.beta_vec@.len()
        &&& !(self.params.icm && self.params.num_replica_chains % 2 == 1)
        &&& self.meas_init < self.params.num_sweeps
    }

    /// A replica-group state vector usable with this runner.
    pub open spec fn chains_ok(self, st: Seq<PTState>) -> bool {
        &&& st.len() == self.params.num_replica_chains
        &&& st.len() >= 1
        &&& forall|c: int| 0 <= c < st.len() ==> (#[trigger] st[c]).wf(*self.instance)
        &&& forall|c: int| 0 <= c < st.len() ==> (#[trigger] st[c]).caches_ready()
        &&& forall|c: int| 0 <= c < st.len() ==> (#[trigger] st[c]).nt() == self.beta_vec@.len()
    }

    /// Bind parameters to an instance. Fails exactly where the
    /// parameters are unusable or cluster moves are requested over an
    /// odd number of chains.
    #[verifier::rlimit(100)]
    pub fn new(instance: &'a BqmIsingInstance, params: &'a PtIcmParams) -> (r: Result<
        PtIcmRunner<'a>,
        PtError,
    >)
        requires
            instance.wf(),
        ensures
            match r {
                Ok(rr) => rr.wf() && params.wf() && rr.params == params && rr.instance
                    == instance && !(params.icm && params.num_replica_chains % 2 == 1)
                    && rr.meas_init as int == (params.warmup_fraction as int) * (
                params.num_sweeps as int) / 65536 && rr.beta_vec@[0] == params.beta.ladder_first()
                    && rr.beta_vec@[rr.beta_vec@.len() - 1] == params.beta.ladder_last() && (
                params.beta matches BetaOptions::Arr(v) ==> rr.beta_vec@ == v@) && (forall|k: int|
                    0 <= k < rr.lo_beta_idx ==> #[trigger] rr.beta_vec@[k] < params.lo_beta) && (
                rr.beta_vec@[rr.lo_beta_idx as int] >= params.lo_beta || rr.lo_beta_idx as int
                    == rr.beta_vec@.len() - 1),
                Err(_) => !params.wf() || (params.icm && params.num_replica_chains % 2 == 1),
            },
    {
        if !check_params(params) {
            return Err(PtError::new("unusable run parameters"));
        }
        if params.icm && params.num_replica_chains % 2 == 1 {
            return Err(PtError::new("cluster moves need an even number of replica chains"));
        }
        let beta_vec = params.beta.get_beta_arr();
        let num_betas = beta_vec.len();
        // Snap lo_beta into the ladder: the first rung at or above it,
        // or the coldest rung when it lies beyond the ladder.
        let mut lo_beta_idx = num_betas - 1;
        let mut found = false;
        for k in 0..num_betas
            invariant
                num_betas == beta_vec@.len() >= 1,
                lo_beta_idx < num_betas,
                !found ==> lo_beta_idx == num_betas - 1 && (forall|u: int|
                    0 <= u < k ==> #[trigger] beta_vec@[u] < params.lo_beta),
                found ==> beta_vec@[lo_beta_idx as int] >= params.lo_beta && (forall|u: int|
                    0 <= u < lo_beta_idx ==> #[trigger] beta_vec@[u] < params.lo_beta),
        {
            if !found && beta_vec[k] >= params.lo_beta {
                lo_beta_idx = k;
                found = true;
            }
        }
        let g = instance.to_csr_graph();
        proof {
            assert(0 <= (params.warmup_fraction as int) * (params.num_sweeps as int) && (
            params.warmup_fraction as int) * (params.num_sweeps as int) < 65536 * (
            params.num_sweeps as int)) by (nonlinear_arith)
                requires
                    0 <= params.warmup_fraction < 65536,
                    1 <= params.num_sweeps,
            ;
            assert(65536 * (params.num_sweeps as int) <= 65536 * 0x4000_0000)
                by (nonlinear_arith)
                requires
                    params.num_sweeps <= 0x4000_0000,
            ;
        }
        let prod = params.warmup_fraction * (params.num_sweeps as i64);
        let meas_init_q = prod / 65536;
        proof {
            vstd::arithmetic::div_mod::lemma_fundamental_div_mod(prod as int, 65536);
            vstd::arithmetic::div_mod::lemma_mod_bound(prod as int, 65536);
            assert(0 <= (meas_init_q as int) && (meas_init_q as int) < (params.num_sweeps as int)) by (nonlinear_arith)
                requires
                    meas_init_q as int == prod as int / 65536,
                    prod as int == 65536 * (prod as int / 65536) + (prod as int % 65536),
                    0 <= (prod as int % 65536) < 65536,
                    0 <= (prod as int) && (prod as int) < 65536 * (params.num_sweeps as int),
            ;
        }
        let meas_init = meas_init_q as u32;
        Ok(PtIcmRunner { params, instance, g, beta_vec, meas_init, lo_beta_idx })
    }

    /// Fresh random replica chains, one state per rung per chain.
    fn generate_init_state(&self, rng: &mut Xoshiro256PlusPlus) -> (st: Vec<PTState>)
        requires
            self.wf(),
        ensures
            self.chains_ok(st@),
            forall|c: int|
                0 <= c < st@.len() ==> chain_budget(
                    #[trigger] st@[c],
                    self.params.num_sweeps as int,
                ),
    {
        let n = self.instance.size() as u32;
        let num_betas = self.beta_vec.len();
        let m = self.params.num_replica_chains as usize;
        let mut pt_state: Vec<PTState> = Vec::new();
        for _c in 0..m
            invariant
                self.wf(),
                n == self.instance.nspins(),
                num_betas == self.beta_vec@.len(),
                pt_state@.len() == _c,
                forall|c: int|
                    0 <= c < _c ==> (#[trigger] pt_state@[c]).wf(*self.instance),
                forall|c: int| 0 <= c < _c ==> (#[trigger] pt_state@[c]).caches_ready(),
                forall|c: int|
                    0 <= c < _c ==> (#[trigger] pt_state@[c]).nt() == num_betas,
                forall|c: int|
                    0 <= c < _c ==> chain_budget(
                        #[trigger] pt_state@[c],
                        self.params.num_sweeps as int,
                    ),
        {
            let mut init_states: Vec<IsingState> = Vec::new();
            for _k in 0..num_betas
                invariant
                    self.wf(),
                    n == self.instance.nspins(),
                    init_states@.len() == _k,
                    forall|k: int|
                        0 <= k < _k ==> (#[trigger] init_states@[k]).wf(),
                    forall|k: int|
                        0 <= k < _k ==> (#[trigger] init_states@[k]).arr@.len() == n,
                    forall|k: int|
                        0 <= k < _k ==> (#[trigger] init_states@[k]).energy_init,
                    forall|k: int|
                        0 <= k < _k ==> self.instance.cache_ok(#[trigger] init_states@[k]),
            {
                let st = rand_ising_state(n, &self.instance, rng);
                init_states.push(st);
            }
            let chain = PTState::new(init_states);
            pt_state.push(chain);
        }
        pt_state
    }

    /// Apply the Houdayer move to every chain pair at every rung at or
    /// above the threshold, refreshing the touched energy caches.
    fn apply_icm(&self, pt_state: &mut Vec<PTState>, rng: &mut Xoshiro256PlusPlus) -> (moves: Vec<
        Option<crate::icm::ClusterSet>,
    >)
        requires
            self.wf(),
            self.chains_ok(old(pt_state)@),
        ensures
            self.chains_ok(final(pt_state)@),
            final(pt_state)@.len() == old(pt_state)@.len(),
            forall|c: int|
                0 <= c < old(pt_state)@.len() ==> (#[trigger] final(pt_state)@[c]).num_acceptances
                    == old(pt_state)@[c].num_acceptances && final(pt_state)@[c].diffusion_hist
                    == old(pt_state)@[c].diffusion_hist && final(pt_state)@[c].round_trips == old(pt_state)@[c].round_trips && final(pt_state)@[c].dir_tags == old(pt_state)@[c].dir_tags,
            !self.params.icm ==> *final(pt_state) == *old(pt_state) && moves@.len() == 0,
            self.params.icm ==> moves@.len() == (old(pt_state)@.len() / 2) * (
            self.beta_vec@.len() - self.lo_beta_idx),
            forall|c: int, u: int|
                0 <= c < old(pt_state)@.len() && 0 <= u < self.lo_beta_idx ==> (
                #[trigger] final(pt_state)@[c].states@[u]) == old(pt_state)@[c].states@[u],
    {
        let mut moves: Vec<Option<crate::icm::ClusterSet>> = Vec::new();
        if !self.params.icm {
            return moves;
        }
        let m = pt_state.len();
        let num_betas = self.beta_vec.len();
        let pairs = m / 2;
        let n = self.instance.size();
        proof {
            assert(0int * ((num_betas - self.lo_beta_idx) as int) == 0) by (nonlinear_arith);
        }
        for p in 0..pairs
            invariant
                self.wf(),
                m == pt_state@.len(),
                pairs == m / 2,
                num_betas == self.beta_vec@.len(),
                (self.lo_beta_idx as int) < num_betas,
                n == self.instance.nspins(),
                self.chains_ok(pt_state@),
                moves@.len() == (p as int) * (num_betas - self.lo_beta_idx),
                forall|c: int|
                    0 <= c < m ==> (#[trigger] pt_state@[c]).num_acceptances == old(pt_state)@[c].num_acceptances && pt_state@[c].diffusion_hist == old(pt_state)@[c].diffusion_hist && pt_state@[c].round_trips == old(pt_state)@[c].round_trips && pt_state@[c].dir_tags == old(pt_state)@[c].dir_tags,
                forall|c: int, u: int|
                    0 <= c < m && 0 <= u < self.lo_beta_idx ==> (
                    #[trigger] pt_state@[c].states@[u]) == old(pt_state)@[c].states@[u],
        {
            let ghost chains0 = pt_state@;
            let mut c0 = pt_state.remove(2 * p);
            let mut c1 = pt_state.remove(2 * p);
            for k in self.lo_beta_idx..num_betas
                invariant
                    self.wf(),
                    n == self.instance.nspins(),
                    num_betas == self.beta_vec@.len(),
                    (self.lo_beta_idx as int) <= k as int <= num_betas,
                    moves@.len() == (p as int) * (num_betas - self.lo_beta_idx) + (k as int
                        - self.lo_beta_idx),
                    forall|u: int|
                        0 <= u < self.lo_beta_idx ==> #[trigger] c0.states@[u] == chains0[2 * (
                        p as int)].states@[u],
                    forall|u: int|
                        0 <= u < self.lo_beta_idx ==> #[trigger] c1.states@[u] == chains0[2 * (
                        p as int) + 1].states@[u],
                    c0.wf(*self.instance),
                    c1.wf(*self.instance),
                    c0.caches_ready(),
                    c1.caches_ready(),
                    c0.nt() == num_betas,
                    c1.nt() == num_betas,
                    c0.num_acceptances == chains0[2 * (p as int)].num_acceptances,
                    c0.diffusion_hist == chains0[2 * (p as int)].diffusion_hist,
                    c0.round_trips == chains0[2 * (p as int)].round_trips,
                    c0.dir_tags == chains0[2 * (p as int)].dir_tags,
                    c1.num_acceptances == chains0[2 * (p as int) + 1].num_acceptances,
                    c1.diffusion_hist == chains0[2 * (p as int) + 1].diffusion_hist,
                    c1.round_trips == chains0[2 * (p as int) + 1].round_trips,
                    c1.dir_tags == chains0[2 * (p as int) + 1].dir_tags,
            {
                let ghost s0b = c0.states@;
                let ghost s1b = c1.states@;
                let mut r0 = c0.states.remove(k);
                let mut r1 = c1.states.remove(k);
                let mv = houdayer_cluster_move(&mut r0, &mut r1, &self.g, rng);
                let _ = self.instance.energy(&mut r0);
                let _ = self.instance.energy(&mut r1);
                c0.states.insert(k, r0);
                c1.states.insert(k, r1);
                moves.push(mv);
                proof {
                    assert(c0.states@ =~= s0b.update(k as int, c0.states@[k as int]));
                    assert(c1.states@ =~= s1b.update(k as int, c1.states@[k as int]));
                    assert forall|u: int| 0 <= u < num_betas implies (
                    #[trigger] c0.states@[u]).wf() && c0.states@[u].arr@.len()
                        == self.instance.nspins() && self.instance.cache_ok(c0.states@[u])
                        && c0.states@[u].energy_init by {
                        if u != k as int {
                            assert(c0.states@[u] == s0b[u]);
                        }
                    }
                    assert forall|u: int| 0 <= u < num_betas implies (
                    #[trigger] c1.states@[u]).wf() && c1.states@[u].arr@.len()
                        == self.instance.nspins() && self.instance.cache_ok(c1.states@[u])
                        && c1.states@[u].energy_init by {
                        if u != k as int {
                            assert(c1.states@[u] == s1b[u]);
                        }
                    }
                }
            }
            pt_state.insert(2 * p, c0);
            let ghost mid = pt_state@;
            pt_state.insert(2 * p + 1, c1);
            proof {
                assert forall|c: int| 0 <= c < m implies (#[trigger] pt_state@[c]).wf(*self.instance) && pt_state@[c].caches_ready() && pt_state@[c].nt() == num_betas
                    && pt_state@[c].num_acceptances == chains0[c].num_acceptances
                    && pt_state@[c].diffusion_hist == chains0[c].diffusion_hist
                    && pt_state@[c].round_trips == chains0[c].round_trips && pt_state@[c].dir_tags
                    == chains0[c].dir_tags by {
                    if c < 2 * (p as int) {
                        assert(pt_state@[c] == chains0[c]);
                    } else if c == 2 * (p as int) {
                    } else if c == 2 * (p as int) + 1 {
                    } else {
                        assert(pt_state@[c] == chains0[c]);
                    }
                }
                assert forall|c: int, u: int|
                    0 <= c < m && 0 <= u < self.lo_beta_idx implies (
                #[trigger] pt_state@[c].states@[u]) == old(pt_state)@[c].states@[u] by {
                    if c == 2 * (p as int) {
                        assert(pt_state@[c] == c0);
                    } else if c == 2 * (p as int) + 1 {
                        assert(pt_state@[c] == c1);
                    } else {
                        assert(pt_state@[c] == chains0[c]);
                    }
                }
                assert((p as int) * (num_betas - self.lo_beta_idx) + (num_betas
                    - self.lo_beta_idx) == (p as int + 1) * (num_betas - self.lo_beta_idx))
                    by (nonlinear_arith);
            }
        }
        proof {
            assert((pairs as int) * (num_betas - self.lo_beta_idx) == (m as int / 2) * (
            num_betas - self.lo_beta_idx));
        }
        moves
    }

    /// Find the minimum cached energy over all chains and rungs.
    fn find_min(&self, pt_state: &Vec<PTState>) -> (r: (i64, usize, usize))
        requires
            self.wf(),
            self.chains_ok(pt_state@),
        ensures
            r.0 as int == group_min(pt_state@, pt_state@.len() as int),
            (r.1 as int) < pt_state@.len(),
            (r.2 as int) < self.beta_vec@.len(),
            pt_state@[r.1 as int].states@[r.2 as int].energy == r.0,
    {
        let m = pt_state.len();
        let num_betas = self.beta_vec.len();
        let mut best = pt_state[0].states[0].energy;
        let mut bc: usize = 0;
        let mut bk: usize = 0;
        proof {
            assert(rung_min(pt_state@[0], 1) == best);
        }
        for c in 0..m
            invariant
                self.wf(),
                self.chains_ok(pt_state@),
                m == pt_state@.len(),
                num_betas == self.beta_vec@.len(),
                (bc as int) < m,
                (bk as int) < num_betas,
                pt_state@[bc as int].states@[bk as int].energy == best,
                c == 0 ==> best as int == rung_min(pt_state@[0], 1) && bc == 0 && bk == 0,
                c > 0 ==> best as int == group_min(pt_state@, c as int),
        {
            for k in 0..num_betas
                invariant
                    self.wf(),
                    self.chains_ok(pt_state@),
                    m == pt_state@.len(),
                    num_betas == self.beta_vec@.len(),
                    0 <= (c as int) < m,
                    (bc as int) < m,
                    (bk as int) < num_betas,
                    pt_state@[bc as int].states@[bk as int].energy == best,
                    k == 0 && c == 0 ==> best as int == rung_min(pt_state@[0], 1) && bc == 0
                        && bk == 0,
                    k == 0 && c > 0 ==> best as int == group_min(pt_state@, c as int),
                    k > 0 && c == 0 ==> best as int == rung_min(pt_state@[0], k as int),
                    k > 0 && c > 0 ==> best as int == (if group_min(pt_state@, c as int)
                        <= rung_min(pt_state@[c as int], k as int) {
                        group_min(pt_state@, c as int)
                    } else {
                        rung_min(pt_state@[c as int], k as int)
                    }),
            {
                let e = pt_state[c].states[k].energy;
                if e < best {
                    best = e;
                    bc = c;
                    bk = k;
                }
            }
        }
        (best, bc, bk)
    }

    /// Accumulate the swap-acceptance counts over all chains into the
    /// result record, saturating at the counter's maximum.
    fn count_acc(&self, pt_state: &Vec<PTState>, pt_results: &mut PtIcmMinResults)
        requires
            self.wf(),
            self.chains_ok(pt_state@),
        ensures
            final(pt_results).acceptance_counts@.len() == self.beta_vec@.len(),
            forall|k: int|
                0 <= k < self.beta_vec@.len() ==> (#[trigger] final(pt_results).acceptance_counts@[k]) as int == (if acc_sum(pt_state@, k, pt_state@.len() as int)
                    <= u32::MAX {
                    acc_sum(pt_state@, k, pt_state@.len() as int)
                } else {
                    u32::MAX as int
                }),
            final(pt_results).params == old(pt_results).params,
            final(pt_results).timing == old(pt_results).timing,
            final(pt_results).gs_time_steps == old(pt_results).gs_time_steps,
            final(pt_results).gs_energies == old(pt_results).gs_energies,
            final(pt_results).gs_states == old(pt_results).gs_states,
            final(pt_results).num_measurements == old(pt_results).num_measurements,
            final(pt_results).instance_size == old(pt_results).instance_size,
    {
        let m = pt_state.len();
        let num_betas = self.beta_vec.len();
        let mut counts: Vec<u32> = Vec::new();
        for k in 0..num_betas
            invariant
                self.wf(),
                self.chains_ok(pt_state@),
                m == pt_state@.len(),
                num_betas == self.beta_vec@.len(),
                counts@.len() == k,
                forall|u: int|
                    0 <= u < k ==> (#[trigger] counts@[u]) as int == (if acc_sum(
                        pt_state@,
                        u,
                        m as int,
                    ) <= u32::MAX {
                        acc_sum(pt_state@, u, m as int)
                    } else {
                        u32::MAX as int
                    }),
        {
            let mut sum: u64 = 0;
            for c in 0..m
                invariant
                    self.wf(),
                    self.chains_ok(pt_state@),
                    m == pt_state@.len() <= 0x1_0000,
                    0 <= (k as int) < num_betas == self.beta_vec@.len(),
                    sum as int == acc_sum(pt_state@, k as int, c as int),
                    sum <= (c as int) * 0x1_0000_0000,
            {
                let a = pt_state[c].num_acceptances[k];
                proof {
                    assert((c as int) * 0x1_0000_0000 + 0x1_0000_0000 == (c as int + 1)
                        * 0x1_0000_0000) by (nonlinear_arith);
                    assert((c as int + 1) * 0x1_0000_0000 <= 0x1_0000 * 0x1_0000_0000)
                        by (nonlinear_arith)
                        requires
                            c as int + 1 <= 0x1_0000,
                    ;
                }
                sum = sum + a as u64;
            }
            let v: u32 = if sum <= u32::MAX as u64 {
                sum as u32
            } else {
                u32::MAX
            };
            counts.push(v);
        }
        pt_results.acceptance_counts = counts;
    }

    /// Take the sweep's measurements: thermal observables and state
    /// records on their strides, and the ground-state log whenever a
    /// new global minimum appears.
    #[verifier::rlimit(100)]
    fn apply_measurements(
        &self,
        i: u32,
        pt_state: &Vec<PTState>,
        minimum_e: &mut Option<i64>,
        pt_results: &mut PtIcmMinResults,
        pt_samples: &mut PtIcmThermalSamples,
    )
        requires
            self.wf(),
            self.chains_ok(pt_state@),
            i < self.params.num_sweeps,
            gs_sync(*old(pt_results), *old(minimum_e)),
            old(pt_results).num_measurements < u32::MAX,
            forall|t: int|
                0 <= t < old(pt_results).gs_time_steps@.len() ==> #[trigger] old(pt_results).gs_time_steps@[t] < i,
            old(pt_samples).store_wf(
                self.beta_vec@.len() as int,
                self.instance.suscept_coefs@.len() as int,
            ),
        ensures
            gs_sync(*final(pt_results), *final(minimum_e)),
            final(pt_samples).store_wf(
                self.beta_vec@.len() as int,
                self.instance.suscept_coefs@.len() as int,
            ),
            final(pt_results).acceptance_counts == old(pt_results).acceptance_counts,
            final(pt_results).params == old(pt_results).params,
            final(pt_results).timing == old(pt_results).timing,
            final(pt_results).instance_size == old(pt_results).instance_size,
            final(pt_results).num_measurements == old(pt_results).num_measurements + (
            if measure_due(
                self.params.sample,
                i as int,
                self.meas_init as int,
                self.params.num_sweeps as int,
            ) {
                1int
            } else {
                0int
            }),
            i < self.meas_init ==> *final(pt_results) == *old(pt_results) && *final(pt_samples)
                == *old(pt_samples) && *final(minimum_e) == *old(minimum_e),
            // Observable measurement happens exactly on its stride.
            measure_due(
                self.params.sample,
                i as int,
                self.meas_init as int,
                self.params.num_sweeps as int,
            ) ==> (forall|r: int|
                0 <= r < self.beta_vec@.len() ==> (#[trigger] final(pt_samples).e@[r])@
                    == old(pt_samples).e@[r]@ + crate::results::energies_row(pt_state@, r))
                && (forall|r: int|
                0 <= r < self.beta_vec@.len() ==> (#[trigger] final(pt_samples).q@[r])@
                    == old(pt_samples).q@[r]@ + crate::results::overlaps_row(
                    pt_state@,
                    r,
                    self.instance.nspins(),
                )) && (forall|r: int, kk: int|
                0 <= r < self.beta_vec@.len() && 0 <= kk < self.instance.suscept_coefs@.len()
                    ==> (#[trigger] final(pt_samples).suscept@[r]@[kk])@ == old(pt_samples).suscept@[r]@[kk]@ + crate::results::suscept_row(
                    pt_state@,
                    r,
                    kk,
                    *self.instance,
                )),
            !measure_due(
                self.params.sample,
                i as int,
                self.meas_init as int,
                self.params.num_sweeps as int,
            ) ==> final(pt_samples).e == old(pt_samples).e && final(pt_samples).q == old(pt_samples).q && final(pt_samples).suscept == old(pt_samples).suscept,
            // State recording happens exactly on its stride.
            measure_due(
                self.params.sample_states,
                i as int,
                self.meas_init as int,
                self.params.num_sweeps as int,
            ) ==> (forall|b: int|
                0 <= b < old(pt_samples).samples@.len() ==> (#[trigger] final(pt_samples).samples@[b])@.len() == old(pt_samples).samples@[b]@.len() + pt_state@.len())
                && (forall|b: int, j: int|
                0 <= b < old(pt_samples).samples@.len() && 0 <= j < pt_state@.len()
                    ==> crate::results::packs(
                    (#[trigger] final(pt_samples).samples@[b]@[old(pt_samples).samples@[b]@.len()
                        + j])@,
                    pt_state@[j].states@[crate::results::sampled_rung(
                        old(pt_samples).compression_level,
                        self.beta_vec@.len() as int,
                        b,
                    )].arr@,
                )),
            !measure_due(
                self.params.sample_states,
                i as int,
                self.meas_init as int,
                self.params.num_sweeps as int,
            ) ==> final(pt_samples).samples == old(pt_samples).samples,
            final(pt_samples).compression_level == old(pt_samples).compression_level,
            final(pt_samples).beta_arr == old(pt_samples).beta_arr,
            final(pt_samples).instance_size == old(pt_samples).instance_size,
            // The ground-state log grows exactly when a new global
            // minimum appears, by the triple of this sweep, the
            // minimum, and a packed state that decodes back to it.
            i >= self.meas_init ==> {
                let gm = group_min(pt_state@, pt_state@.len() as int);
                if (*old(minimum_e) is None || gm < (*old(minimum_e))->Some_0) {
                    &&& final(pt_results).gs_energies@ == old(pt_results).gs_energies@.push(
                        gm as i64,
                    )
                    &&& final(pt_results).gs_time_steps@ == old(pt_results).gs_time_steps@.push(i)
                    &&& final(pt_results).gs_states@.len() == old(pt_results).gs_states@.len()
                        + 1
                    &&& (forall|j: int|
                        0 <= j < old(pt_results).gs_states@.len() ==> #[trigger] final(pt_results).gs_states@[j] == old(pt_results).gs_states@[j])
                    &&& (final(pt_results).gs_states@.last())@.len() == (
                    self.instance.nspins() + 63) / 64
                    &&& self.instance.espec(
                        decoded_bits_u64(
                            (final(pt_results).gs_states@.last())@,
                            self.instance.nspins(),
                        ),
                    ) == gm
                    &&& *final(minimum_e) == Option::Some(gm as i64)
                } else {
                    &&& final(pt_results).gs_energies == old(pt_results).gs_energies
                    &&& final(pt_results).gs_time_steps == old(pt_results).gs_time_steps
                    &&& final(pt_results).gs_states == old(pt_results).gs_states
                    &&& *final(minimum_e) == *old(minimum_e)
                }
            },
            forall|t: int|
                0 <= t < final(pt_results).gs_time_steps@.len() ==> #[trigger] final(pt_results).gs_time_steps@[t] <= i,
            i >= self.meas_init ==> (*final(minimum_e) matches Option::Some(me) && me as int
                <= group_min(pt_state@, pt_state@.len() as int) && (match *old(minimum_e) {
                Option::Some(m0) => me <= m0,
                Option::None => true,
            })),
    {
        if i < self.meas_init {
            return ;
        }
        let stp = i - self.meas_init;
        let last = i == self.params.num_sweeps - 1;
        match self.params.sample {
            Option::Some(s) => {
                if stp % s == 0 || last {
                    pt_samples.measure(pt_state, &self.instance);
                    pt_results.num_measurements = pt_results.num_measurements + 1;
                }
            },
            Option::None => {},
        }
        match self.params.sample_states {
            Option::Some(s) => {
                if stp % s == 0 || last {
                    pt_samples.sample_states(pt_state);
                }
            },
            Option::None => {},
        }
        let (min_e, bc, bk) = self.find_min(pt_state);
        let record = match *minimum_e {
            Option::Some(m) => min_e < m,
            Option::None => true,
        };
        if record {
            *minimum_e = Option::Some(min_e);
            let packed = pt_state[bc].states[bk].as_u64_vec();
            proof {
                let st = pt_state@[bc as int].states@[bk as int];
                assert(st.arr@.len() == self.instance.nspins());
                assert(packed@.len() * 64 >= st.arr@.len());
                lemma_u64_round_trip(st.arr@, packed@);
                assert(st.energy_init);
                assert(self.instance.espec(st.arr@) == min_e);
            }
            pt_results.gs_states.push(packed);
            pt_results.gs_energies.push(min_e);
            pt_results.gs_time_steps.push(i);
            proof {
                assert(pt_results.gs_energies@.last() == min_e);
                assert forall|a: int, b: int|
                    0 <= a < b < pt_results.gs_energies@.len() implies #[trigger] pt_results.gs_energies@[a]
                    > #[trigger] pt_results.gs_energies@[b] by {
                    if b < pt_results.gs_energies@.len() - 1 {
                        assert(pt_results.gs_energies@[a] == old(pt_results).gs_energies@[a]);
                        assert(pt_results.gs_energies@[b] == old(pt_results).gs_energies@[b]);
                    } else {
                        assert(old(pt_results).gs_energies@.len() > 0 ==> old(pt_results).gs_energies@[a] >= old(pt_results).gs_energies@.last());
                    }
                }
                assert forall|a: int, b: int|
                    0 <= a < b < pt_results.gs_time_steps@.len() implies
                    #[trigger] pt_results.gs_time_steps@[a]
                    < #[trigger] pt_results.gs_time_steps@[b] by {
                    if b < pt_results.gs_time_steps@.len() - 1 {
                        assert(pt_results.gs_time_steps@[a] == old(pt_results).gs_time_steps@[a]);
                        assert(pt_results.gs_time_steps@[b] == old(pt_results).gs_time_steps@[b]);
                    } else {
                        assert(pt_results.gs_time_steps@[b] == i);
                        assert(pt_results.gs_time_steps@[a] == old(pt_results).gs_time_steps@[a]);
                    }
                }
            }
        }
    }
}

/// An executable mirror of the parameter sanity condition.
pub fn check_params(params: &PtIcmParams) -> (r: bool)
    ensures
        r == params.wf(),
{
    let beta_ok: bool = match &params.beta {
        BetaOptions::Geometric(b) => 1 <= b.beta_min && b.beta_min <= b.beta_max && b.beta_max
            <= BETA_MAX && 2 <= b.num_beta && b.num_beta <= T_MAX as u32,
        BetaOptions::Arr(v) => {
            let m = v.len();
            let mut ok = m >= 1 && m <= T_MAX;
            for k in 0..m
                invariant
                    m == v@.len(),
                    ok == (m >= 1 && m <= T_MAX && (forall|u: int|
                        0 <= u < k ==> 0 <= #[trigger] v@[u] <= BETA_MAX) && (forall|u: int|
                        0 <= u < k - 1 ==> #[trigger] v@[u] <= v@[u + 1])),
            {
                if v[k] < 0 || v[k] > BETA_MAX {
                    ok = false;
                }
                if k > 0 && v[k - 1] > v[k] {
                    ok = false;
                }
            }
            ok
        },
    };
    let strides_ok = (match params.sample {
        Option::Some(s) => s >= 1,
        Option::None => true,
    }) && (match params.sample_states {
        Option::Some(s) => s >= 1,
        Option::None => true,
    }) && (match params.sample_limiting {
        Option::Some(l) => l <= 2,
        Option::None => true,
    });
    beta_ok && 1 <= params.num_sweeps && params.num_sweeps <= 0x4000_0000 && 0
        <= params.warmup_fraction && params.warmup_fraction < crate::fixp::FIX_ONE && 0
        <= params.lo_beta && 1 <= params.num_replica_chains && params.num_replica_chains
        <= 0x1_0000 && strides_ok
}

/// A result record shaped for this runner's instance and ladder, with
/// a consistent strictly-decreasing ground-state log.
pub open spec fn results_ok(res: PtIcmMinResults, inst: BqmIsingInstance, t: int) -> bool {
    &&& res.instance_size == inst.nspins()
    &&& res.acceptance_counts@.len() == t
    &&& res.gs_energies@.len() == res.gs_time_steps@.len()
    &&& res.gs_energies@.len() == res.gs_states@.len()
    &&& res.gs_energies@.len() >= 1
    &&& forall|a: int, b: int|
        0 <= a < b < res.gs_energies@.len() ==> #[trigger] res.gs_energies@[a]
            > #[trigger] res.gs_energies@[b]
    &&& forall|a: int, b: int|
        0 <= a < b < res.gs_time_steps@.len() ==> #[trigger] res.gs_time_steps@[a]
            < #[trigger] res.gs_time_steps@[b]
    &&& forall|j: int|
        0 <= j < res.gs_states@.len() ==> (#[trigger] res.gs_states@[j])@.len() == (
        inst.nspins() + 63) / 64 && inst.espec(
            decoded_bits_u64(res.gs_states@[j]@, inst.nspins()),
        ) == res.gs_energies@[j]
}

/// An independent copy of a parameter record.
fn clone_params(p: &PtIcmParams) -> (r: PtIcmParams)
    ensures
        r.num_sweeps == p.num_sweeps,
        r.warmup_fraction == p.warmup_fraction,
        r.lo_beta == p.lo_beta,
        r.icm == p.icm,
        r.num_replica_chains == p.num_replica_chains,
        r.threads == p.threads,
        r.sample == p.sample,
        r.sample_states == p.sample_states,
        r.sample_limiting == p.sample_limiting,
        r.beta.wf() == p.beta.wf(),
        r.beta.spec_len() == p.beta.spec_len(),
{
    let beta = match &p.beta {
        BetaOptions::Geometric(b) => BetaOptions::Geometric(*b),
        BetaOptions::Arr(v) => {
            let mut v2: Vec<i64> = Vec::new();
            let m = v.len();
            for k in 0..m
                invariant
                    m == v@.len(),
                    v2@.len() == k,
                    forall|u: int| 0 <= u < k ==> #[trigger] v2@[u] == v@[u],
            {
                v2.push(v[k]);
            }
            proof {
                assert(v2@ =~= v@);
            }
            BetaOptions::Arr(v2)
        },
    };
    PtIcmParams {
        num_sweeps: p.num_sweeps,
        warmup_fraction: p.warmup_fraction,
        beta,
        lo_beta: p.lo_beta,
        icm: p.icm,
        num_replica_chains: p.num_replica_chains,
        threads: p.threads,
        sample: p.sample,
        sample_states: p.sample_states,
        sample_limiting: p.sample_limiting,
    }
}

impl<'a> PtIcmRunner<'a> {
    /// The recorded rows the sample store must hold after `i` sweeps:
    /// a deterministic function of the strides and the chain count.
    pub open spec fn store_counts(self, samples: PtIcmThermalSamples, i: int) -> bool {
        let mcc = meas_count(
            self.params.sample,
            self.meas_init as int,
            self.params.num_sweeps as int,
            i,
        );
        let mcs = meas_count(
            self.params.sample_states,
            self.meas_init as int,
            self.params.num_sweeps as int,
            i,
        );
        let m = self.params.num_replica_chains as int;
        &&& forall|r: int|
            0 <= r < samples.e@.len() ==> (#[trigger] samples.e@[r])@.len() == m * mcc
        &&& forall|r: int|
            0 <= r < samples.q@.len() ==> (#[trigger] samples.q@[r])@.len() == (m / 2) * mcc
        &&& forall|r: int, kk: int|
            0 <= r < samples.suscept@.len() && 0 <= kk < samples.suscept@[r]@.len() ==> (
            #[trigger] samples.suscept@[r]@[kk])@.len() == (m / 2) * mcc
        &&& forall|b: int|
            0 <= b < samples.samples@.len() ==> (#[trigger] samples.samples@[b])@.len() == m
                * mcs
    }

    /// The rolling state of a run after `i` sweeps: a consistent
    /// ground-state log whose packed states decode to their energies,
    /// an exact measurement count, and exact store row counts.
    pub open spec fn run_progress(
        self,
        res: PtIcmMinResults,
        samples: PtIcmThermalSamples,
        min_e: Option<i64>,
        i: int,
    ) -> bool {
        &&& gs_sync(res, min_e)
        &&& res.num_measurements as int == meas_count(
            self.params.sample,
            self.meas_init as int,
            self.params.num_sweeps as int,
            i,
        )
        &&& forall|t: int|
            0 <= t < res.gs_time_steps@.len() ==> self.meas_init <= #[trigger] res.gs_time_steps@[t] < i
        &&& forall|j: int|
            0 <= j < res.gs_states@.len() ==> (#[trigger] res.gs_states@[j])@.len() == (
            self.instance.nspins() + 63) / 64 && self.instance.espec(
                decoded_bits_u64(res.gs_states@[j]@, self.instance.nspins()),
            ) == res.gs_energies@[j]
        &&& self.store_counts(samples, i)
    }

    /// The sweep loop, serial over chains: cluster moves, per-chain
    /// Metropolis and swap pass, then measurement and ground-state
    /// tracking; finally the wall-clock time of the loop is recorded.
    fn pt_loop(&self, pt_state: &mut Vec<PTState>, rng: &mut Xoshiro256PlusPlus) -> (r: (
        PtIcmMinResults,
        PtIcmThermalSamples,
    ))
        requires
            self.wf(),
            self.chains_ok(old(pt_state)@),
            forall|c: int|
                0 <= c < old(pt_state)@.len() ==> chain_budget(
                    #[trigger] old(pt_state)@[c],
                    self.params.num_sweeps as int,
                ),
        ensures
            self.chains_ok(final(pt_state)@),
            results_ok(r.0, *self.instance, self.beta_vec@.len() as int),
            r.0.gs_energies@.last() as int <= group_min(
                final(pt_state)@,
                final(pt_state)@.len() as int,
            ),
            r.1.store_wf(self.beta_vec@.len() as int, self.instance.suscept_coefs@.len() as int),
            r.0.num_measurements as int == meas_count(
                self.params.sample,
                self.meas_init as int,
                self.params.num_sweeps as int,
                self.params.num_sweeps as int,
            ),
            self.store_counts(r.1, self.params.num_sweeps as int),
            forall|t: int|
                0 <= t < r.0.gs_time_steps@.len() ==> self.meas_init
                    <= #[trigger] r.0.gs_time_steps@[t] < self.params.num_sweeps,
    {
        let num_betas = self.beta_vec.len();
        let ns = self.params.num_sweeps;
        let m = self.params.num_replica_chains as usize;
        let n_sz = self.instance.size();
        let mut pt_results = PtIcmMinResults::new(
            clone_params(self.params),
            num_betas as u32,
            n_sz as u32,
        );
        let nchi = self.instance.suscept_coefs.len();
        let level = match self.params.sample_limiting {
            Option::Some(l) => l,
            Option::None => 0,
        };
        let mut pt_samples = PtIcmThermalSamples::new(
            &self.beta_vec,
            n_sz as u64,
            0,
            0,
            nchi,
            level,
        );
        let mut minimum_e: Option<i64> = Option::None;
        let t0 = time_now();
        for i in 0..ns
            invariant
                self.wf(),
                num_betas == self.beta_vec@.len(),
                ns == self.params.num_sweeps,
                m == self.params.num_replica_chains as int,
                nchi == self.instance.suscept_coefs@.len(),
                self.chains_ok(pt_state@),
                forall|c: int|
                    0 <= c < pt_state@.len() ==> chain_budget(
                        #[trigger] pt_state@[c],
                        ns - i,
                    ),
                self.run_progress(pt_results, pt_samples, minimum_e, i as int),
                i > self.meas_init ==> minimum_e is Some,
                pt_samples.store_wf(num_betas as int, nchi as int),
                pt_results.acceptance_counts@.len() == num_betas,
                pt_results.instance_size == self.instance.nspins(),
                minimum_e matches Option::Some(me) ==> pt_results.gs_energies@.last() == me,
                i == ns ==> (minimum_e matches Option::Some(me2) && me2 as int <= group_min(
                    pt_state@,
                    pt_state@.len() as int,
                )),
        {
            self.apply_icm(pt_state, rng);
            let ghost entry = pt_state@;
            for c in 0..m
                invariant
                    self.wf(),
                    num_betas == self.beta_vec@.len(),
                    ns == self.params.num_sweeps,
                    0 <= (i as int) < ns,
                    m == pt_state@.len(),
                    m == entry.len(),
                    self.chains_ok(entry),
                    self.chains_ok(pt_state@),
                    forall|c2: int|
                        0 <= c2 < m ==> chain_budget(#[trigger] entry[c2], ns - i),
                    forall|c2: int| c <= c2 < m ==> #[trigger] pt_state@[c2] == entry[c2],
                    forall|c2: int|
                        0 <= c2 < c ==> chain_budget(#[trigger] pt_state@[c2], ns - i - 1),
            {
                let ghost before = pt_state@;
                let mut chain = pt_state.remove(c);
                chain_sweep(&mut chain, self.instance, &self.beta_vec, rng);
                pt_state.insert(c, chain);
                proof {
                    assert(pt_state@ =~= before.update(c as int, pt_state@[c as int]));
                    assert(chain_sweep_post(
                        entry[c as int],
                        pt_state@[c as int],
                        *self.instance,
                        self.beta_vec@,
                    ));
                    assert forall|c2: int| 0 <= c2 < m implies (#[trigger] pt_state@[c2]).wf(
                        *self.instance,
                    ) && pt_state@[c2].caches_ready() && pt_state@[c2].nt() == num_betas by {
                        if c2 != c as int {
                            assert(pt_state@[c2] == before[c2]);
                        }
                    }
                    assert forall|c2: int| 0 <= c2 < c + 1 implies chain_budget(
                        #[trigger] pt_state@[c2],
                        ns - i - 1,
                    ) by {
                        if c2 < c as int {
                            assert(pt_state@[c2] == before[c2]);
                            assert(chain_budget(before[c2], ns - i - 1));
                        } else {
                            assert(chain_sweep_post(entry[c2], pt_state@[c2], *self.instance, self.beta_vec@));
                            assert(chain_budget(entry[c2], ns - i));
                            let post = pt_state@[c2];
                            let pre = entry[c2];
                            assert forall|k: int| 0 <= k < post.nt() implies
                                #[trigger] post.num_acceptances@[k] + (ns - i - 1)
                                <= u32::MAX by {
                                assert(pre.num_acceptances@[k] + (ns - i) <= u32::MAX);
                            }
                            assert forall|k: int| 0 <= k < post.nt() implies (
                            #[trigger] post.diffusion_hist@[k]).0 + (ns - i - 1) <= u64::MAX
                                && post.diffusion_hist@[k].1 + (ns - i - 1) <= u64::MAX by {
                                assert((pre.diffusion_hist@[k]).0 + (ns - i) <= u64::MAX);
                                assert(pre.diffusion_hist@[k].1 + (ns - i) <= u64::MAX);
                            }
                        }
                    }
                }
            }
            let ghost me_before = minimum_e;
            let ghost samp_before = pt_samples;
            proof {
                lemma_meas_count_bounds(
                    self.params.sample,
                    self.meas_init as int,
                    ns as int,
                    i as int,
                );
            }
            self.apply_measurements(i, pt_state, &mut minimum_e, &mut pt_results, &mut pt_samples);
            proof {
                if i as int + 1 == ns as int {
                    assert(i >= self.meas_init);
                }
                let mi = self.meas_init as int;
                let mm = self.params.num_replica_chains as int;
                let mcc0 = meas_count(self.params.sample, mi, ns as int, i as int);
                let mcs0 = meas_count(self.params.sample_states, mi, ns as int, i as int);
                assert(mm * (mcc0 + 1) == mm * mcc0 + mm) by (nonlinear_arith);
                assert((mm / 2) * (mcc0 + 1) == (mm / 2) * mcc0 + (mm / 2))
                    by (nonlinear_arith);
                assert(mm * (mcs0 + 1) == mm * mcs0 + mm) by (nonlinear_arith);
                assert forall|r2: int| 0 <= r2 < pt_samples.e@.len() implies (
                #[trigger] pt_samples.e@[r2])@.len() == mm * meas_count(
                    self.params.sample,
                    mi,
                    ns as int,
                    i as int + 1,
                ) by {
                    if measure_due(self.params.sample, i as int, mi, ns as int) {
                        assert(pt_samples.e@[r2]@ == samp_before.e@[r2]@ + energies_row(
                            pt_state@,
                            r2,
                        ));
                    } else {
                        assert(pt_samples.e@[r2] == samp_before.e@[r2]);
                    }
                }
                assert forall|r2: int| 0 <= r2 < pt_samples.q@.len() implies (
                #[trigger] pt_samples.q@[r2])@.len() == (mm / 2) * meas_count(
                    self.params.sample,
                    mi,
                    ns as int,
                    i as int + 1,
                ) by {
                    if measure_due(self.params.sample, i as int, mi, ns as int) {
                        assert(pt_samples.q@[r2]@ == samp_before.q@[r2]@ + overlaps_row(
                            pt_state@,
                            r2,
                            self.instance.nspins(),
                        ));
                    } else {
                        assert(pt_samples.q@[r2] == samp_before.q@[r2]);
                    }
                }
                assert forall|r2: int, kk: int|
                    0 <= r2 < pt_samples.suscept@.len() && 0 <= kk
                        < pt_samples.suscept@[r2]@.len() implies (
                #[trigger] pt_samples.suscept@[r2]@[kk])@.len() == (mm / 2) * meas_count(
                    self.params.sample,
                    mi,
                    ns as int,
                    i as int + 1,
                ) by {
                    if measure_due(self.params.sample, i as int, mi, ns as int) {
                        assert(pt_samples.suscept@[r2]@[kk]@ == samp_before.suscept@[r2]@[kk]@
                            + suscept_row(pt_state@, r2, kk, *self.instance));
                    } else {
                        assert(pt_samples.suscept@[r2] == samp_before.suscept@[r2]);
                    }
                }
                assert forall|b2: int| 0 <= b2 < pt_samples.samples@.len() implies (
                #[trigger] pt_samples.samples@[b2])@.len() == mm * meas_count(
                    self.params.sample_states,
                    mi,
                    ns as int,
                    i as int + 1,
                ) by {
                    if measure_due(self.params.sample_states, i as int, mi, ns as int) {
                        assert(pt_samples.samples@[b2]@.len() == samp_before.samples@[b2]@.len()
                            + pt_state@.len());
                    } else {
                        assert(pt_samples.samples@[b2] == samp_before.samples@[b2]);
                    }
                }
            }
        }
        let dt = time_elapsed(&t0);
        pt_results.timing = duration_micros(&dt);
        (pt_results, pt_samples)
    }

    /// The sweep loop with the per-chain work scattered over the
    /// worker pool: chains are independent within a sweep, so each
    /// task owns one chain and one generator stream.
    fn parallel_pt_loop(
        &self,
        pt_state: &mut Vec<PTState>,
        rng_vec: &mut Vec<Xoshiro256PlusPlus>,
        icm_rng: &mut Xoshiro256PlusPlus,
    ) -> (r: (PtIcmMinResults, PtIcmThermalSamples))
        requires
            self.wf(),
            self.chains_ok(old(pt_state)@),
            old(rng_vec)@.len() == old(pt_state)@.len(),
            forall|c: int|
                0 <= c < old(pt_state)@.len() ==> chain_budget(
                    #[trigger] old(pt_state)@[c],
                    self.params.num_sweeps as int,
                ),
        ensures
            self.chains_ok(final(pt_state)@),
            results_ok(r.0, *self.instance, self.beta_vec@.len() as int),
            r.0.gs_energies@.last() as int <= group_min(
                final(pt_state)@,
                final(pt_state)@.len() as int,
            ),
            r.1.store_wf(self.beta_vec@.len() as int, self.instance.suscept_coefs@.len() as int),
            r.0.num_measurements as int == meas_count(
                self.params.sample,
                self.meas_init as int,
                self.params.num_sweeps as int,
                self.params.num_sweeps as int,
            ),
            self.store_counts(r.1, self.params.num_sweeps as int),
            forall|t: int|
                0 <= t < r.0.gs_time_steps@.len() ==> self.meas_init
                    <= #[trigger] r.0.gs_time_steps@[t] < self.params.num_sweeps,
    {
        let num_betas = self.beta_vec.len();
        let ns = self.params.num_sweeps;
        let n_sz = self.instance.size();
        let mut pt_results = PtIcmMinResults::new(
            clone_params(self.params),
            num_betas as u32,
            n_sz as u32,
        );
        let nchi = self.instance.suscept_coefs.len();
        let level = match self.params.sample_limiting {
            Option::Some(l) => l,
            Option::None => 0,
        };
        let mut pt_samples = PtIcmThermalSamples::new(
            &self.beta_vec,
            n_sz as u64,
            0,
            0,
            nchi,
            level,
        );
        let mut minimum_e: Option<i64> = Option::None;
        let t0 = time_now();
        for i in 0..ns
            invariant
                self.wf(),
                num_betas == self.beta_vec@.len(),
                ns == self.params.num_sweeps,
                nchi == self.instance.suscept_coefs@.len(),
                self.chains_ok(pt_state@),
                rng_vec@.len() == pt_state@.len(),
                forall|c: int|
                    0 <= c < pt_state@.len() ==> chain_budget(
                        #[trigger] pt_state@[c],
                        ns - i,
                    ),
                self.run_progress(pt_results, pt_samples, minimum_e, i as int),
                i > self.meas_init ==> minimum_e is Some,
                pt_samples.store_wf(num_betas as int, nchi as int),
                pt_results.acceptance_counts@.len() == num_betas,
                pt_results.instance_size == self.instance.nspins(),
                minimum_e matches Option::Some(me) ==> pt_results.gs_energies@.last() == me,
                i == ns ==> (minimum_e matches Option::Some(me2) && me2 as int <= group_min(
                    pt_state@,
                    pt_state@.len() as int,
                )),
        {
            self.apply_icm(pt_state, icm_rng);
            let ghost entry = pt_state@;
            proof {
                assert forall|c: int| 0 <= c < entry.len() implies chain_sweep_pre(
                    #[trigger] entry[c],
                    *self.instance,
                    self.beta_vec@,
                ) by {
                    assert(chain_budget(entry[c], ns - i));
                }
            }
            par_chain_sweeps(pt_state, self.instance, &self.beta_vec, rng_vec);
            proof {
                assert forall|c: int| 0 <= c < pt_state@.len() implies (
                #[trigger] pt_state@[c]).wf(*self.instance) && pt_state@[c].caches_ready()
                    && pt_state@[c].nt() == num_betas && chain_budget(
                    pt_state@[c],
                    ns - i - 1,
                ) by {
                    assert(chain_sweep_post(entry[c], pt_state@[c], *self.instance, self.beta_vec@));
                    assert(chain_budget(entry[c], ns - i));
                    let post = pt_state@[c];
                    let pre = entry[c];
                    assert forall|k: int| 0 <= k < post.nt() implies
                        #[trigger] post.num_acceptances@[k] + (ns - i - 1) <= u32::MAX by {
                        assert(pre.num_acceptances@[k] + (ns - i) <= u32::MAX);
                    }
                    assert forall|k: int| 0 <= k < post.nt() implies (
                    #[trigger] post.diffusion_hist@[k]).0 + (ns - i - 1) <= u64::MAX
                        && post.diffusion_hist@[k].1 + (ns - i - 1) <= u64::MAX by {
                        assert((pre.diffusion_hist@[k]).0 + (ns - i) <= u64::MAX);
                        assert(pre.diffusion_hist@[k].1 + (ns - i) <= u64::MAX);
                    }
                }
            }
            let ghost me_before = minimum_e;
            let ghost samp_before = pt_samples;
            proof {
                lemma_meas_count_bounds(
                    self.params.sample,
                    self.meas_init as int,
                    ns as int,
                    i as int,
                );
            }
            self.apply_measurements(i, pt_state, &mut minimum_e, &mut pt_results, &mut pt_samples);
            proof {
                if i as int + 1 == ns as int {
                    assert(i >= self.meas_init);
                }
                let mi = self.meas_init as int;
                let mm = self.params.num_replica_chains as int;
                let mcc0 = meas_count(self.params.sample, mi, ns as int, i as int);
                let mcs0 = meas_count(self.params.sample_states, mi, ns as int, i as int);
                assert(mm * (mcc0 + 1) == mm * mcc0 + mm) by (nonlinear_arith);
                assert((mm / 2) * (mcc0 + 1) == (mm / 2) * mcc0 + (mm / 2))
                    by (nonlinear_arith);
                assert(mm * (mcs0 + 1) == mm * mcs0 + mm) by (nonlinear_arith);
                assert forall|r2: int| 0 <= r2 < pt_samples.e@.len() implies (
                #[trigger] pt_samples.e@[r2])@.len() == mm * meas_count(
                    self.params.sample,
                    mi,
                    ns as int,
                    i as int + 1,
                ) by {
                    if measure_due(self.params.sample, i as int, mi, ns as int) {
                        assert(pt_samples.e@[r2]@ == samp_before.e@[r2]@ + energies_row(
                            pt_state@,
                            r2,
                        ));
                    } else {
                        assert(pt_samples.e@[r2] == samp_before.e@[r2]);
                    }
                }
                assert forall|r2: int| 0 <= r2 < pt_samples.q@.len() implies (
                #[trigger] pt_samples.q@[r2])@.len() == (mm / 2) * meas_count(
                    self.params.sample,
                    mi,
                    ns as int,
                    i as int + 1,
                ) by {
                    if measure_due(self.params.sample, i as int, mi, ns as int) {
                        assert(pt_samples.q@[r2]@ == samp_before.q@[r2]@ + overlaps_row(
                            pt_state@,
                            r2,
                            self.instance.nspins(),
                        ));
                    } else {
                        assert(pt_samples.q@[r2] == samp_before.q@[r2]);
                    }
                }
                assert forall|r2: int, kk: int|
                    0 <= r2 < pt_samples.suscept@.len() && 0 <= kk
                        < pt_samples.suscept@[r2]@.len() implies (
                #[trigger] pt_samples.suscept@[r2]@[kk])@.len() == (mm / 2) * meas_count(
                    self.params.sample,
                    mi,
                    ns as int,
                    i as int + 1,
                ) by {
                    if measure_due(self.params.sample, i as int, mi, ns as int) {
                        assert(pt_samples.suscept@[r2]@[kk]@ == samp_before.suscept@[r2]@[kk]@
                            + suscept_row(pt_state@, r2, kk, *self.instance));
                    } else {
                        assert(pt_samples.suscept@[r2] == samp_before.suscept@[r2]);
                    }
                }
                assert forall|b2: int| 0 <= b2 < pt_samples.samples@.len() implies (
                #[trigger] pt_samples.samples@[b2])@.len() == mm * meas_count(
                    self.params.sample_states,
                    mi,
                    ns as int,
                    i as int + 1,
                ) by {
                    if measure_due(self.params.sample_states, i as int, mi, ns as int) {
                        assert(pt_samples.samples@[b2]@.len() == samp_before.samples@[b2]@.len()
                            + pt_state@.len());
                    } else {
                        assert(pt_samples.samples@[b2] == samp_before.samples@[b2]);
                    }
                }
            }
        }
        let dt = time_elapsed(&t0);
        pt_results.timing = duration_micros(&dt);
        (pt_results, pt_samples)
    }

    /// One serial run from the given (or freshly generated) replica
    /// group, with a caller-provided generator: with the same seed,
    /// the same results.
    pub fn run_with_rng(
        &self,
        rng: &mut Xoshiro256PlusPlus,
        initial_state: Option<Vec<PTState>>,
    ) -> (r: (PtIcmMinResults, PtIcmThermalSamples, Vec<PTState>))
        requires
            self.wf(),
            match initial_state {
                Option::Some(st) => self.chains_ok(st@) && forall|c: int|
                    0 <= c < st@.len() ==> chain_budget(
                        #[trigger] st@[c],
                        self.params.num_sweeps as int,
                    ),
                Option::None => true,
            },
        ensures
            self.chains_ok(r.2@),
            results_ok(r.0, *self.instance, self.beta_vec@.len() as int),
            r.0.gs_energies@.last() as int <= group_min(r.2@, r.2@.len() as int),
            r.1.store_wf(self.beta_vec@.len() as int, self.instance.suscept_coefs@.len() as int),
            forall|k: int|
                0 <= k < self.beta_vec@.len() ==> (#[trigger] r.0.acceptance_counts@[k]) as int
                    == (if acc_sum(r.2@, k, r.2@.len() as int) <= u32::MAX {
                    acc_sum(r.2@, k, r.2@.len() as int)
                } else {
                    u32::MAX as int
                }),
            r.0.num_measurements as int == meas_count(
                self.params.sample,
                self.meas_init as int,
                self.params.num_sweeps as int,
                self.params.num_sweeps as int,
            ),
            self.store_counts(r.1, self.params.num_sweeps as int),
            forall|t: int|
                0 <= t < r.0.gs_time_steps@.len() ==> self.meas_init
                    <= #[trigger] r.0.gs_time_steps@[t] < self.params.num_sweeps,
    {
        let mut pt_state = match initial_state {
            Option::Some(st) => st,
            Option::None => self.generate_init_state(rng),
        };
        let (mut pt_results, pt_samps) = self.pt_loop(&mut pt_state, rng);
        self.count_acc(&pt_state, &mut pt_results);
        (pt_results, pt_samps, pt_state)
    }

    /// One serial run seeded from machine entropy.
    pub fn run(&self, initial_state: Option<Vec<PTState>>) -> (r: (
        PtIcmMinResults,
        PtIcmThermalSamples,
        Vec<PTState>,
    ))
        requires
            self.wf(),
            match initial_state {
                Option::Some(st) => self.chains_ok(st@) && forall|c: int|
                    0 <= c < st@.len() ==> chain_budget(
                        #[trigger] st@[c],
                        self.params.num_sweeps as int,
                    ),
                Option::None => true,
            },
        ensures
            self.chains_ok(r.2@),
            results_ok(r.0, *self.instance, self.beta_vec@.len() as int),
            r.0.gs_energies@.last() as int <= group_min(r.2@, r.2@.len() as int),
            r.1.store_wf(self.beta_vec@.len() as int, self.instance.suscept_coefs@.len() as int),
            forall|k: int|
                0 <= k < self.beta_vec@.len() ==> (#[trigger] r.0.acceptance_counts@[k]) as int
                    == (if acc_sum(r.2@, k, r.2@.len() as int) <= u32::MAX {
                    acc_sum(r.2@, k, r.2@.len() as int)
                } else {
                    u32::MAX as int
                }),
            r.0.num_measurements as int == meas_count(
                self.params.sample,
                self.meas_init as int,
                self.params.num_sweeps as int,
                self.params.num_sweeps as int,
            ),
            self.store_counts(r.1, self.params.num_sweeps as int),
            forall|t: int|
                0 <= t < r.0.gs_time_steps@.len() ==> self.meas_init
                    <= #[trigger] r.0.gs_time_steps@[t] < self.params.num_sweeps,
    {
        let seed = entropy_u64();
        let mut rng = rng_from_seed(seed);
        self.run_with_rng(&mut rng, initial_state)
    }

    /// One run with the per-chain work scattered over worker threads,
    /// seeded from machine entropy; each chain draws from its own
    /// jumped stream.
    pub fn run_parallel(&self) -> (r: (PtIcmMinResults, PtIcmThermalSamples, Vec<PTState>))
        requires
            self.wf(),
        ensures
            self.chains_ok(r.2@),
            results_ok(r.0, *self.instance, self.beta_vec@.len() as int),
            r.0.gs_energies@.last() as int <= group_min(r.2@, r.2@.len() as int),
            r.1.store_wf(self.beta_vec@.len() as int, self.instance.suscept_coefs@.len() as int),
            forall|k: int|
                0 <= k < self.beta_vec@.len() ==> (#[trigger] r.0.acceptance_counts@[k]) as int
                    == (if acc_sum(r.2@, k, r.2@.len() as int) <= u32::MAX {
                    acc_sum(r.2@, k, r.2@.len() as int)
                } else {
                    u32::MAX as int
                }),
            r.0.num_measurements as int == meas_count(
                self.params.sample,
                self.meas_init as int,
                self.params.num_sweeps as int,
                self.params.num_sweeps as int,
            ),
            self.store_counts(r.1, self.params.num_sweeps as int),
            forall|t: int|
                0 <= t < r.0.gs_time_steps@.len() ==> self.meas_init
                    <= #[trigger] r.0.gs_time_steps@[t] < self.params.num_sweeps,
    {
        let seed = entropy_u64();
        let mut rng = rng_from_seed(seed);
        let mut pt_state = self.generate_init_state(&mut rng);
        let m = pt_state.len();
        let mut rng_vec: Vec<Xoshiro256PlusPlus> = Vec::new();
        for _c in 0..m
            invariant
                rng_vec@.len() == _c,
        {
            rng_vec.push(rng_clone(&rng));
            rng_jump(&mut rng);
        }
        let mut icm_rng = rng_clone(&rng);
        let (mut pt_results, pt_samps) = self.parallel_pt_loop(
            &mut pt_state,
            &mut rng_vec,
            &mut icm_rng,
        );
        self.count_acc(&pt_state, &mut pt_results);
        (pt_results, pt_samps, pt_state)
    }
}

/// Run the PT-ICM engine on one instance and return its ground-state
/// record; the parallel variant is chosen where more than one thread
/// is asked for. Fails exactly where the parameters are unusable or
/// cluster moves are requested over an odd number of chains.
pub fn pt_icm_minimize(instance: &BqmIsingInstance, params: &PtIcmParams) -> (r: Result<
    PtIcmMinResults,
    PtError,
>)
    requires
        instance.wf(),
    ensures
        match r {
            Ok(res) => params.wf() && !(params.icm && params.num_replica_chains % 2 == 1)
                && results_ok(res, *instance, params.beta.spec_len())
                && res.num_measurements as int == meas_count(
                params.sample,
                (params.warmup_fraction as int) * (params.num_sweeps as int) / 65536,
                params.num_sweeps as int,
                params.num_sweeps as int,
            ),
            Err(_) => !params.wf() || (params.icm && params.num_replica_chains % 2 == 1),
        },
{
    let runner = match PtIcmRunner::new(instance, params) {
        Ok(r) => r,
        Err(e) => {
            return Err(e);
        },
    };
    let out = if params.threads > 1 {
        runner.run_parallel()
    } else {
        runner.run(Option::None)
    };
    Ok(out.0)
}

} // verus!
