//! Parallel tempering: the Metropolis sampler bound to one inverse
//! temperature, the replica-chain state with its swap pass, round-trip
//! tagging and diffusion histogram.
use vstd::prelude::*;

use rand_xoshiro::Xoshiro256PlusPlus;
use rayon::iter::{IndexedParallelIterator, IntoParallelRefMutIterator, ParallelIterator};

use crate::fixp::{exp_neg_q31, mul_q16, Q31_ONE};
use crate::instance::{lemma_espec_bound, BqmIsingInstance};
use crate::rng::{rng_below, rng_chance};
use crate::spins::IsingState;

verus! {

/// Largest admitted inverse temperature, in Q47.16.
pub const BETA_MAX: i64 = 0x1_0000_0000;

/// A valid temperature ladder: non-decreasing, within bounds.
pub open spec fn betas_wf(b: Seq<i64>) -> bool {
    &&& b.len() >= 1
    &&& forall|k: int| 0 <= k < b.len() ==> 0 <= #[trigger] b[k] <= BETA_MAX
    &&& forall|k: int| 0 <= k < b.len() - 1 ==> #[trigger] b[k] <= b[k + 1]
}

/// A Metropolis sampler bound to one inverse temperature over
/// instances of `n` spins.
pub struct IsingSampler {
    /// The inverse temperature, in Q47.16.
    pub beta: i64,
    /// Number of spins of the instances this sampler serves.
    pub n: u32,
}

/// What one Metropolis decision at site `i` may do to the spin
/// vector: leave it, or negate exactly the spin at `i`; where the
/// energy change is non-positive the flip is certain.
pub open spec fn metro_step_ok(
    inst: BqmIsingInstance,
    pre: Seq<i8>,
    post: Seq<i8>,
    i: int,
) -> bool {
    &&& (post == pre || post == pre.update(i, (-pre[i]) as i8))
    &&& (inst.dspec(pre, i) <= 0 ==> post == pre.update(i, (-pre[i]) as i8))
}

/// `b` is reachable from `a` by in-order Metropolis decisions at
/// sites 0 .. k.
pub open spec fn sweep_rel(inst: BqmIsingInstance, a: Seq<i8>, b: Seq<i8>, k: int) -> bool
    decreases k,
{
    if k <= 0 {
        a == b
    } else {
        exists|mid: Seq<i8>|
            sweep_rel(inst, a, mid, k - 1) && #[trigger] metro_step_ok(inst, mid, b, k - 1)
    }
}

/// Extending an in-order Metropolis chain by one decision.
proof fn lemma_sweep_rel_step(
    inst: BqmIsingInstance,
    a: Seq<i8>,
    mid: Seq<i8>,
    b: Seq<i8>,
    k: int,
)
    requires
        sweep_rel(inst, a, mid, k),
        metro_step_ok(inst, mid, b, k),
        k >= 0,
    ensures
        sweep_rel(inst, a, b, k + 1),
{
    assert(metro_step_ok(inst, mid, b, (k + 1) - 1));
    assert(sweep_rel(inst, a, mid, (k + 1) - 1));
}

/// One Metropolis proposal at site `i`: flip if the energy change is
/// non-positive, else flip with probability exp(-beta dE). Either way
/// the cached energy tracks the spin vector exactly.
fn metropolis_step(
    instance: &BqmIsingInstance,
    beta: i64,
    state: &mut IsingState,
    i: u32,
    rng: &mut Xoshiro256PlusPlus,
)
    requires
        instance.wf(),
        old(state).wf(),
        old(state).arr@.len() == instance.nspins(),
        old(state).energy_init,
        instance.cache_ok(*old(state)),
        i < old(state).arr@.len(),
        0 <= beta <= BETA_MAX,
    ensures
        final(state).wf(),
        final(state).arr@.len() == old(state).arr@.len(),
        final(state).energy_init,
        instance.cache_ok(*final(state)),
        final(state).arr@ == old(state).arr@ || final(state).arr@ == old(state).arr@.update(
            i as int,
            (-old(state).arr@[i as int]) as i8,
        ),
        instance.dspec(old(state).arr@, i as int) <= 0 ==> final(state).arr@ == old(
            state,
        ).arr@.update(i as int, (-old(state).arr@[i as int]) as i8),
        metro_step_ok(*instance, old(state).arr@, final(state).arr@, i as int),
{
    let de = instance.delta_energy(state, i);
    proof {
        lemma_espec_bound(*instance, state.arr@);
        lemma_espec_bound(
            *instance,
            state.arr@.update(i as int, (-state.arr@[i as int]) as i8),
        );
    }
    let accept: bool = if de <= 0 {
        true
    } else {
        let z = mul_q16(beta, de);
        proof {
            assert((beta as int) * (de as int) >= 0) by (nonlinear_arith)
                requires
                    beta >= 0,
                    de as int > 0,
            ;
            vstd::arithmetic::div_mod::lemma_div_is_ordered(
                0,
                (beta as int) * (de as int),
                65536,
            );
        }
        let p = exp_neg_q31(z);
        rng_chance(rng, p, Q31_ONE)
    };
    if accept {
        let e0 = state.energy;
        state.uset_neg(i);
        state.energy = e0 + de;
    }
}

impl IsingSampler {
    /// Bind a sampler to one inverse temperature of an instance.
    pub fn new(instance: &BqmIsingInstance, beta: i64, n: u32) -> (r: IsingSampler)
        requires
            instance.wf(),
            n == instance.nspins(),
            0 <= beta <= BETA_MAX,
        ensures
            r.beta == beta,
            r.n == n,
    {
        IsingSampler { beta, n }
    }

    /// The inverse temperature this sampler runs at.
    pub fn beta(&self) -> (b: i64)
        ensures
            b == self.beta,
    {
        self.beta
    }

    /// The (cached) energy of a state under the instance.
    pub fn energy(&self, instance: &BqmIsingInstance, st: &mut IsingState) -> (e: i64)
        requires
            instance.wf(),
            old(st).wf(),
            old(st).arr@.len() == instance.nspins(),
            instance.cache_ok(*old(st)),
        ensures
            e == instance.espec(old(st).arr@),
            final(st).arr@ == old(st).arr@,
            final(st).energy == e,
            final(st).energy_init,
            final(st).wf(),
            instance.cache_ok(*final(st)),
    {
        instance.energy(st)
    }

    /// One Metropolis proposal at a uniformly drawn site.
    pub fn advance(
        &self,
        instance: &BqmIsingInstance,
        state: &mut IsingState,
        rng: &mut Xoshiro256PlusPlus,
    )
        requires
            instance.wf(),
            old(state).wf(),
            old(state).arr@.len() == instance.nspins(),
            old(state).energy_init,
            instance.cache_ok(*old(state)),
            old(state).arr@.len() == self.n,
            self.n >= 1,
            0 <= self.beta <= BETA_MAX,
        ensures
            final(state).wf(),
            final(state).arr@.len() == old(state).arr@.len(),
            final(state).energy_init,
            instance.cache_ok(*final(state)),
            exists|m: int|
                0 <= m < instance.nspins() && #[trigger] metro_step_ok(
                    *instance,
                    old(state).arr@,
                    final(state).arr@,
                    m,
                ),
    {
        let mv = rng_below(rng, self.n);
        metropolis_step(instance, self.beta, state, mv, rng);
        proof {
            assert(metro_step_ok(*instance, old(state).arr@, state.arr@, mv as int));
        }
    }

    /// One deterministic sweep: a Metropolis proposal at every site in
    /// index order, accumulating energy changes into the cache.
    pub fn sweep(
        &self,
        instance: &BqmIsingInstance,
        state: &mut IsingState,
        rng: &mut Xoshiro256PlusPlus,
    )
        requires
            instance.wf(),
            old(state).wf(),
            old(state).arr@.len() == instance.nspins(),
            old(state).energy_init,
            instance.cache_ok(*old(state)),
            0 <= self.beta <= BETA_MAX,
        ensures
            final(state).wf(),
            final(state).arr@.len() == old(state).arr@.len(),
            final(state).energy_init,
            instance.cache_ok(*final(state)),
            sweep_rel(*instance, old(state).arr@, final(state).arr@, instance.nspins()),
    {
        let n = state.arr.len();
        for i in 0..n
            invariant
                instance.wf(),
                state.wf(),
                state.arr@.len() == n,
                n == instance.nspins(),
                state.energy_init,
                instance.cache_ok(*state),
                0 <= self.beta <= BETA_MAX,
                sweep_rel(*instance, old(state).arr@, state.arr@, i as int),
        {
            let ghost mid = state.arr@;
            metropolis_step(instance, self.beta, state, i as u32, rng);
            proof {
                lemma_sweep_rel_step(*instance, old(state).arr@, mid, state.arr@, i as int);
            }
        }
    }
}

/// The direction tag of a replica: where it was seen last on the
/// ladder.
#[derive(Clone, Copy, Debug, PartialEq, Eq, Structural)]
pub enum DirTag {
    /// Not yet seen at either end of the ladder.
    Unseen,
    /// Last seen at the hottest end; wandering toward beta_min.
    TowardMin,
    /// Last seen at the coldest end; wandering toward beta_max.
    TowardMax,
}

/// One parallel-tempering replica chain: a state per ladder rung,
/// per-rung swap acceptance counts, the diffusion histogram, the
/// round-trip counter and the per-rung direction tags.
pub struct PTState {
    /// One spin state per inverse temperature, coldest last.
    pub states: Vec<IsingState>,
    /// Accepted swaps between rungs k and k+1, counted at k.
    pub num_acceptances: Vec<u32>,
    /// Per rung: observations of (toward_max, toward_min) tags.
    pub diffusion_hist: Vec<(u64, u64)>,
    /// Completed endpoint-to-endpoint traversals.
    pub round_trips: u32,
    /// Direction tag of the state at each rung.
    pub dir_tags: Vec<DirTag>,
}

/// The cached energies of a sequence of states.
pub open spec fn energies_of(s: Seq<IsingState>) -> Seq<i64> {
    s.map_values(|st: IsingState| st.energy)
}

impl PTState {
    /// Number of ladder rungs.
    pub open spec fn nt(self) -> int {
        self.states@.len() as int
    }

    /// Structural well-formedness against an instance: matching
    /// lengths, spin states over the instance's sites, and truthful
    /// energy caches.
    pub open spec fn wf(self, inst: BqmIsingInstance) -> bool {
        &&& self.states@.len() >= 1
        &&& self.num_acceptances@.len() == self.states@.len()
        &&& self.diffusion_hist@.len() == self.states@.len()
        &&& self.dir_tags@.len() == self.states@.len()
        &&& forall|k: int| 0 <= k < self.states@.len() ==> (#[trigger] self.states@[k]).wf()
        &&& forall|k: int|
            0 <= k < self.states@.len() ==> (#[trigger] self.states@[k]).arr@.len()
                == inst.nspins()
        &&& forall|k: int|
            0 <= k < self.states@.len() ==> inst.cache_ok(#[trigger] self.states@[k])
    }

    /// All energy caches are filled.
    pub open spec fn caches_ready(self) -> bool {
        forall|k: int| 0 <= k < self.states@.len() ==> (#[trigger] self.states@[k]).energy_init
    }

    /// Wrap freshly created states: counters zero, tags unseen.
    pub fn new(states: Vec<IsingState>) -> (r: PTState)
        requires
            states@.len() >= 1,
        ensures
            r.states == states,
            r.round_trips == 0,
            r.num_acceptances@.len() == states@.len(),
            r.diffusion_hist@.len() == states@.len(),
            r.dir_tags@.len() == states@.len(),
            forall|k: int| 0 <= k < states@.len() ==> #[trigger] r.num_acceptances@[k] == 0,
            forall|k: int|
                0 <= k < states@.len() ==> #[trigger] r.diffusion_hist@[k] == (0u64, 0u64),
            forall|k: int| 0 <= k < states@.len() ==> #[trigger] r.dir_tags@[k] == DirTag::Unseen,
    {
        let nt = states.len();
        let mut num_acceptances: Vec<u32> = Vec::new();
        let mut diffusion_hist: Vec<(u64, u64)> = Vec::new();
        let mut dir_tags: Vec<DirTag> = Vec::new();
        for k in 0..nt
            invariant
                num_acceptances@.len() == k,
                diffusion_hist@.len() == k,
                dir_tags@.len() == k,
                forall|u: int| 0 <= u < k ==> #[trigger] num_acceptances@[u] == 0,
                forall|u: int| 0 <= u < k ==> #[trigger] diffusion_hist@[u] == (0u64, 0u64),
                forall|u: int| 0 <= u < k ==> #[trigger] dir_tags@[u] == DirTag::Unseen,
        {
            num_acceptances.push(0);
            diffusion_hist.push((0, 0));
            dir_tags.push(DirTag::Unseen);
        }
        PTState { states, num_acceptances, diffusion_hist, round_trips: 0, dir_tags }
    }

    /// The ladder of states, coldest last.
    pub fn states_ref(&self) -> (r: &Vec<IsingState>)
        ensures
            r == &self.states,
    {
        &self.states
    }

    /// Clear tags, histogram, acceptance counts and the round-trip
    /// counter; the states themselves are kept.
    pub fn reset_tags(&mut self)
        ensures
            final(self).states == old(self).states,
            final(self).round_trips == 0,
            final(self).num_acceptances@.len() == old(self).num_acceptances@.len(),
            final(self).diffusion_hist@.len() == old(self).diffusion_hist@.len(),
            final(self).dir_tags@.len() == old(self).dir_tags@.len(),
            forall|k: int|
                0 <= k < final(self).num_acceptances@.len()
                    ==> #[trigger] final(self).num_acceptances@[k] == 0,
            forall|k: int|
                0 <= k < final(self).diffusion_hist@.len()
                    ==> #[trigger] final(self).diffusion_hist@[k] == (0u64, 0u64),
            forall|k: int|
                0 <= k < final(self).dir_tags@.len() ==> #[trigger] final(self).dir_tags@[k]
                    == DirTag::Unseen,
    {
        self.round_trips = 0;
        let na = self.num_acceptances.len();
        for k in 0..na
            invariant
                na == self.num_acceptances@.len(),
                forall|u: int| 0 <= u < k ==> #[trigger] self.num_acceptances@[u] == 0,
                self.states == old(self).states,
                self.round_trips == 0,
                self.diffusion_hist == old(self).diffusion_hist,
                self.dir_tags == old(self).dir_tags,
        {
            self.num_acceptances.set(k, 0);
        }
        let nh = self.diffusion_hist.len();
        for k in 0..nh
            invariant
                nh == self.diffusion_hist@.len(),
                forall|u: int| 0 <= u < k ==> #[trigger] self.diffusion_hist@[u] == (0u64, 0u64),
                self.states == old(self).states,
                self.round_trips == 0,
                self.num_acceptances@.len() == old(self).num_acceptances@.len(),
                forall|u: int|
                    0 <= u < self.num_acceptances@.len() ==> #[trigger] self.num_acceptances@[u]
                        == 0,
                self.dir_tags == old(self).dir_tags,
        {
            self.diffusion_hist.set(k, (0, 0));
        }
        let ntg = self.dir_tags.len();
        for k in 0..ntg
            invariant
                ntg == self.dir_tags@.len(),
                forall|u: int| 0 <= u < k ==> #[trigger] self.dir_tags@[u] == DirTag::Unseen,
                self.states == old(self).states,
                self.round_trips == 0,
                self.num_acceptances@.len() == old(self).num_acceptances@.len(),
                forall|u: int|
                    0 <= u < self.num_acceptances@.len() ==> #[trigger] self.num_acceptances@[u]
                        == 0,
                self.diffusion_hist@.len() == old(self).diffusion_hist@.len(),
                forall|u: int|
                    0 <= u < self.diffusion_hist@.len() ==> #[trigger] self.diffusion_hist@[u] == (
                    0u64,
                    0u64,
                ),
        {
            self.dir_tags.set(k, DirTag::Unseen);
        }
    }
}

/// Replacing one element exchanges its old value for the new one in
/// the sequence's multiset.
pub proof fn lemma_update_to_multiset<A>(s: Seq<A>, i: int, v: A)
    requires
        0 <= i < s.len(),
    ensures
        s.update(i, v).to_multiset() == s.to_multiset().remove(s[i]).insert(v),
{
    broadcast use vstd::seq_lib::group_to_multiset_ensures;
    broadcast use vstd::multiset::group_multiset_axioms;

    let su = s.update(i, v);
    assert(su.remove(i) =~= s.remove(i));
    assert(su.remove(i).to_multiset() =~= su.to_multiset().remove(v));
    assert(s.remove(i).to_multiset() =~= s.to_multiset().remove(s[i]));
    assert(su.contains(v)) by {
        assert(su[i] == v);
    }
    assert(su.to_multiset().count(v) > 0);
    assert(su.to_multiset() =~= su.to_multiset().remove(v).insert(v));
}

/// Exchanging two adjacent elements leaves a sequence's multiset
/// unchanged: the heart of the claim that a parallel-tempering swap
/// pass permutes, and never alters, the ladder's states and cached
/// energies.
pub proof fn lemma_swap_to_multiset<A>(s: Seq<A>, k: int)
    requires
        0 <= k < s.len() - 1,
    ensures
        s.update(k, s[k + 1]).update(k + 1, s[k]).to_multiset() == s.to_multiset(),
{
    broadcast use vstd::seq_lib::group_to_multiset_ensures;
    broadcast use vstd::multiset::group_multiset_axioms;

    let a = s[k];
    let b = s[k + 1];
    let s1 = s.update(k, b);
    let sw = s1.update(k + 1, a);
    lemma_update_to_multiset(s, k, b);
    lemma_update_to_multiset(s1, k + 1, a);
    assert(s1[k + 1] == b);
    assert(sw.to_multiset() == s.to_multiset().remove(a).insert(b).remove(b).insert(a));
    assert(s.to_multiset().remove(a).insert(b).remove(b) =~= s.to_multiset().remove(a));
    assert(s.contains(a)) by {
        assert(s[k] == a);
    }
    assert(s.to_multiset().count(a) > 0);
    assert(s.to_multiset().remove(a).insert(a) =~= s.to_multiset());
}

/// What one swap decision at pair (k, k+1) may do to a chain: leave
/// it, which can happen only when the swap exponent is negative, or
/// exchange the two states and their tags and count the acceptance
/// at k.
pub open spec fn swap_step_ok(betas: Seq<i64>, pre: PTState, post: PTState, k: int) -> bool {
    let d = (betas[k] - betas[k + 1]) * (pre.states@[k].energy - pre.states@[k + 1].energy);
    ||| (post == pre && d < 0)
    ||| {
        &&& post.states@ == pre.states@.update(k, pre.states@[k + 1]).update(
            k + 1,
            pre.states@[k],
        )
        &&& post.dir_tags@ == pre.dir_tags@.update(k, pre.dir_tags@[k + 1]).update(
            k + 1,
            pre.dir_tags@[k],
        )
        &&& post.num_acceptances@ == pre.num_acceptances@.update(
            k,
            (pre.num_acceptances@[k] + 1) as u32,
        )
        &&& post.diffusion_hist == pre.diffusion_hist
        &&& post.round_trips == pre.round_trips
    }
}

/// `b` is reachable from `a` by in-order swap decisions at pairs
/// 0 .. k.
pub open spec fn swap_pass_rel(betas: Seq<i64>, a: PTState, b: PTState, k: int) -> bool
    decreases k,
{
    if k <= 0 {
        a == b
    } else {
        exists|mid: PTState|
            swap_pass_rel(betas, a, mid, k - 1) && #[trigger] swap_step_ok(betas, mid, b, k - 1)
    }
}

/// Extending an in-order swap chain by one decision.
proof fn lemma_swap_rel_step(betas: Seq<i64>, a: PTState, mid: PTState, b: PTState, k: int)
    requires
        swap_pass_rel(betas, a, mid, k),
        swap_step_ok(betas, mid, b, k),
        k >= 0,
    ensures
        swap_pass_rel(betas, a, b, k + 1),
{
    assert(swap_step_ok(betas, mid, b, (k + 1) - 1));
    assert(swap_pass_rel(betas, a, mid, (k + 1) - 1));
}

/// One parallel-tempering swap pass over all adjacent rung pairs, in
/// ladder order: a swap of (k, k+1) is accepted with probability
/// min(1, exp((beta_k - beta_{k+1})(E_k - E_{k+1}))); on acceptance the
/// two states (with their cached energies) and their direction tags
/// change places and the acceptance count at k grows by one. Whatever
/// the draws, the multiset of states -- and so of cached energies -- on
/// the ladder is unchanged.
#[verifier::rlimit(100)]
pub fn pt_swap_pass(
    chain: &mut PTState,
    instance: &BqmIsingInstance,
    betas: &Vec<i64>,
    rng: &mut Xoshiro256PlusPlus,
)
    requires
        instance.wf(),
        betas_wf(betas@),
        old(chain).wf(*instance),
        old(chain).caches_ready(),
        betas@.len() == old(chain).nt(),
        forall|k: int|
            0 <= k < old(chain).nt() ==> #[trigger] old(chain).num_acceptances@[k] < u32::MAX,
    ensures
        final(chain).wf(*instance),
        final(chain).caches_ready(),
        final(chain).nt() == old(chain).nt(),
        final(chain).states@.to_multiset() == old(chain).states@.to_multiset(),
        energies_of(final(chain).states@).to_multiset() == energies_of(
            old(chain).states@,
        ).to_multiset(),
        final(chain).dir_tags@.to_multiset() == old(chain).dir_tags@.to_multiset(),
        final(chain).dir_tags@.len() == old(chain).dir_tags@.len(),
        final(chain).round_trips == old(chain).round_trips,
        final(chain).diffusion_hist == old(chain).diffusion_hist,
        final(chain).num_acceptances@.len() == old(chain).num_acceptances@.len(),
        forall|k: int|
            0 <= k < old(chain).nt() ==> old(chain).num_acceptances@[k]
                <= #[trigger] final(chain).num_acceptances@[k] <= old(chain).num_acceptances@[k]
                + 1,
        swap_pass_rel(betas@, *old(chain), *final(chain), old(chain).nt() - 1),
{
    let nt = chain.states.len();
    let ghost inst = *instance;
    for k in 0..nt - 1
        invariant
            instance.wf(),
            inst == *instance,
            betas_wf(betas@),
            betas@.len() == nt,
            nt == chain.states@.len(),
            chain.wf(inst),
            chain.caches_ready(),
            chain.states@.to_multiset() == old(chain).states@.to_multiset(),
            energies_of(chain.states@).to_multiset() == energies_of(
                old(chain).states@,
            ).to_multiset(),
            chain.dir_tags@.to_multiset() == old(chain).dir_tags@.to_multiset(),
            chain.dir_tags@.len() == old(chain).dir_tags@.len(),
            chain.round_trips == old(chain).round_trips,
            chain.diffusion_hist == old(chain).diffusion_hist,
            chain.num_acceptances@.len() == old(chain).num_acceptances@.len() == nt,
            forall|u: int|
                0 <= u < nt ==> old(chain).num_acceptances@[u]
                    <= #[trigger] chain.num_acceptances@[u] <= old(chain).num_acceptances@[u]
                    + 1,
            forall|u: int|
                k <= u < nt ==> #[trigger] chain.num_acceptances@[u] == old(chain).num_acceptances@[u],
            forall|u: int|
                0 <= u < nt ==> #[trigger] old(chain).num_acceptances@[u] < u32::MAX,
            swap_pass_rel(betas@, *old(chain), *chain, k as int),
    {
        let ghost pre_k = *chain;
        let ek = chain.states[k].energy;
        let ek1 = chain.states[k + 1].energy;
        proof {
            assert(chain.states@[k as int].energy_init);
            assert(chain.states@[k as int + 1].energy_init);
            lemma_espec_bound(inst, chain.states@[k as int].arr@);
            lemma_espec_bound(inst, chain.states@[k as int + 1].arr@);
        }
        let bdiff = betas[k] - betas[k + 1];
        let ediff = ek - ek1;
        let z = mul_q16(bdiff, ediff);
        let accept: bool = if z >= 0 {
            true
        } else {
            let p = exp_neg_q31(-z);
            rng_chance(rng, p, Q31_ONE)
        };
        proof {
            if !accept {
                // A rejection can only come from a negative exponent.
                let d = (betas@[k as int] - betas@[k as int + 1]) * (
                pre_k.states@[k as int].energy - pre_k.states@[k as int + 1].energy);
                if d >= 0 {
                    vstd::arithmetic::div_mod::lemma_div_is_ordered(0, d, 65536);
                }
            }
        }
        if accept {
            let ghost sb = chain.states@;
            let ghost tb = chain.dir_tags@;
            let sk = chain.states.remove(k);
            chain.states.insert(k + 1, sk);
            let t0 = chain.dir_tags[k];
            let t1 = chain.dir_tags[k + 1];
            chain.dir_tags.set(k, t1);
            chain.dir_tags.set(k + 1, t0);
            let a = chain.num_acceptances[k];
            chain.num_acceptances.set(k, a + 1);
            proof {
                assert(chain.states@ =~= sb.update(k as int, sb[k as int + 1]).update(
                    k as int + 1,
                    sb[k as int],
                ));
                lemma_swap_to_multiset(sb, k as int);
                assert(energies_of(chain.states@) =~= energies_of(sb).update(
                    k as int,
                    energies_of(sb)[k as int + 1],
                ).update(k as int + 1, energies_of(sb)[k as int]));
                lemma_swap_to_multiset(energies_of(sb), k as int);
                assert(chain.dir_tags@ =~= tb.update(k as int, tb[k as int + 1]).update(
                    k as int + 1,
                    tb[k as int],
                ));
                lemma_swap_to_multiset(tb, k as int);
                assert forall|u: int| 0 <= u < nt implies (#[trigger] chain.states@[u]).wf()
                    && chain.states@[u].arr@.len() == inst.nspins() && inst.cache_ok(
                    chain.states@[u],
                ) && chain.states@[u].energy_init by {
                    if u == k as int {
                        assert(chain.states@[u] == sb[k as int + 1]);
                    } else if u == k as int + 1 {
                        assert(chain.states@[u] == sb[k as int]);
                    } else {
                        assert(chain.states@[u] == sb[u]);
                    }
                }
            }
        }
        proof {
            assert(swap_step_ok(betas@, pre_k, *chain, k as int));
            lemma_swap_rel_step(betas@, *old(chain), pre_k, *chain, k as int);
        }
    }
}

/// Retag the ladder's endpoints and count completed traversals: the
/// state now at the hottest rung is heading toward the coldest and
/// vice versa; a counter increment happens exactly when an endpoint is
/// reached by a state tagged with the opposite direction.
pub fn update_round_trip_tags(chain: &mut PTState)
    requires
        old(chain).dir_tags@.len() >= 2,
        old(chain).round_trips <= u32::MAX - 2,
    ensures
        final(chain).states == old(chain).states,
        final(chain).num_acceptances == old(chain).num_acceptances,
        final(chain).diffusion_hist == old(chain).diffusion_hist,
        final(chain).dir_tags@ == old(chain).dir_tags@.update(0, DirTag::TowardMax).update(
            old(chain).dir_tags@.len() - 1,
            DirTag::TowardMin,
        ),
        final(chain).round_trips == old(chain).round_trips + (if old(chain).dir_tags@[0]
            == DirTag::TowardMin {
            1int
        } else {
            0int
        }) + (if old(chain).dir_tags@[old(chain).dir_tags@.len() - 1] == DirTag::TowardMax {
            1int
        } else {
            0int
        }),
{
    let last = chain.dir_tags.len() - 1;
    let t0 = chain.dir_tags[0];
    let tl = chain.dir_tags[last];
    if t0 == DirTag::TowardMin {
        chain.round_trips = chain.round_trips + 1;
    }
    if tl == DirTag::TowardMax {
        chain.round_trips = chain.round_trips + 1;
    }
    chain.dir_tags.set(0, DirTag::TowardMax);
    chain.dir_tags.set(last, DirTag::TowardMin);
}

/// Record one observation per rung into the diffusion histogram: the
/// first column counts states heading toward beta_max, the second
/// those heading toward beta_min; untagged states are not counted.
pub fn record_diffusion(chain: &mut PTState)
    requires
        old(chain).diffusion_hist@.len() == old(chain).dir_tags@.len(),
        forall|k: int|
            0 <= k < old(chain).diffusion_hist@.len() ==> (#[trigger] old(chain).diffusion_hist@[k]).0 < u64::MAX && old(chain).diffusion_hist@[k].1 < u64::MAX,
    ensures
        final(chain).states == old(chain).states,
        final(chain).num_acceptances == old(chain).num_acceptances,
        final(chain).dir_tags == old(chain).dir_tags,
        final(chain).round_trips == old(chain).round_trips,
        final(chain).diffusion_hist@.len() == old(chain).diffusion_hist@.len(),
        forall|k: int|
            0 <= k < old(chain).diffusion_hist@.len() ==> #[trigger] final(chain).diffusion_hist@[k] == ((old(chain).diffusion_hist@[k].0 + (if old(chain).dir_tags@[k] == DirTag::TowardMax {
                1u64
            } else {
                0u64
            })) as u64, (old(chain).diffusion_hist@[k].1 + (if old(chain).dir_tags@[k]
                == DirTag::TowardMin {
                1u64
            } else {
                0u64
            })) as u64),
{
    let nh = chain.diffusion_hist.len();
    for k in 0..nh
        invariant
            nh == chain.diffusion_hist@.len() == old(chain).diffusion_hist@.len(),
            chain.dir_tags == old(chain).dir_tags,
            chain.states == old(chain).states,
            chain.num_acceptances == old(chain).num_acceptances,
            chain.round_trips == old(chain).round_trips,
            nh == chain.dir_tags@.len(),
            forall|u: int|
                k <= u < nh ==> #[trigger] chain.diffusion_hist@[u] == old(chain).diffusion_hist@[u],
            forall|u: int|
                0 <= u < nh ==> (#[trigger] old(chain).diffusion_hist@[u]).0 < u64::MAX && old(chain).diffusion_hist@[u].1 < u64::MAX,
            forall|u: int|
                0 <= u < k ==> #[trigger] chain.diffusion_hist@[u] == ((old(chain).diffusion_hist@[u].0 + (if old(chain).dir_tags@[u] == DirTag::TowardMax {
                    1u64
                } else {
                    0u64
                })) as u64, (old(chain).diffusion_hist@[u].1 + (if old(chain).dir_tags@[u]
                    == DirTag::TowardMin {
                    1u64
                } else {
                    0u64
                })) as u64),
    {
        let (h0, h1) = chain.diffusion_hist[k];
        let tag = chain.dir_tags[k];
        let n0 = if tag == DirTag::TowardMax {
            h0 + 1
        } else {
            h0
        };
        let n1 = if tag == DirTag::TowardMin {
            h1 + 1
        } else {
            h1
        };
        chain.diffusion_hist.set(k, (n0, n1));
    }
}

/// What one chain sweep needs of a chain.
pub open spec fn chain_sweep_pre(pre: PTState, inst: BqmIsingInstance, betas: Seq<i64>) -> bool {
    &&& inst.wf()
    &&& betas_wf(betas)
    &&& pre.wf(inst)
    &&& pre.caches_ready()
    &&& betas.len() == pre.nt()
    &&& pre.round_trips <= u32::MAX - 2
    &&& forall|k: int| 0 <= k < pre.nt() ==> #[trigger] pre.num_acceptances@[k] < u32::MAX
    &&& forall|k: int|
        0 <= k < pre.nt() ==> (#[trigger] pre.diffusion_hist@[k]).0 < u64::MAX
            && pre.diffusion_hist@[k].1 < u64::MAX
}

/// The Metropolis stage of a chain sweep: every rung's state moves by
/// an in-order Metropolis sweep; counters and tags are untouched.
pub open spec fn metro_stage_ok(inst: BqmIsingInstance, pre: PTState, mid: PTState) -> bool {
    &&& mid.states@.len() == pre.states@.len()
    &&& mid.num_acceptances == pre.num_acceptances
    &&& mid.diffusion_hist == pre.diffusion_hist
    &&& mid.dir_tags == pre.dir_tags
    &&& mid.round_trips == pre.round_trips
    &&& forall|k: int|
        0 <= k < pre.states@.len() ==> sweep_rel(
            inst,
            pre.states@[k].arr@,
            (#[trigger] mid.states@[k]).arr@,
            inst.nspins(),
        )
}

/// The round-trip increments owed by one endpoint retagging.
pub open spec fn rt_inc(tags: Seq<DirTag>) -> int {
    (if tags[0] == DirTag::TowardMin {
        1int
    } else {
        0int
    }) + (if tags[tags.len() - 1] == DirTag::TowardMax {
        1int
    } else {
        0int
    })
}

/// The closing stage of a chain sweep: endpoint retagging with its
/// round-trip count (on ladders of two or more rungs), then one
/// diffusion observation of the new tags.
pub open spec fn close_stage_ok(mid: PTState, post: PTState) -> bool {
    let t = mid.dir_tags@.len() as int;
    &&& post.states == mid.states
    &&& post.num_acceptances == mid.num_acceptances
    &&& (t >= 2 ==> post.dir_tags@ == mid.dir_tags@.update(0, DirTag::TowardMax).update(
        t - 1,
        DirTag::TowardMin,
    ) && post.round_trips == mid.round_trips + rt_inc(mid.dir_tags@))
    &&& (t < 2 ==> post.dir_tags == mid.dir_tags && post.round_trips == mid.round_trips)
    &&& post.dir_tags@.len() == t
    &&& post.diffusion_hist@.len() == mid.diffusion_hist@.len()
    &&& mid.diffusion_hist@.len() == t
    &&& forall|k: int|
        0 <= k < mid.diffusion_hist@.len() ==> #[trigger] post.diffusion_hist@[k] == ((
        mid.diffusion_hist@[k].0 + (if post.dir_tags@[k] == DirTag::TowardMax {
            1u64
        } else {
            0u64
        })) as u64, (mid.diffusion_hist@[k].1 + (if post.dir_tags@[k] == DirTag::TowardMin {
            1u64
        } else {
            0u64
        })) as u64)
}

/// What one chain sweep guarantees: shape and cache validity are kept,
/// every counter grows by at most its per-sweep budget, and the final
/// chain is reachable by the three-stage pipeline of per-rung
/// Metropolis sweeps, the in-order swap pass, and the deterministic
/// retag-and-record step.
pub open spec fn chain_sweep_post(
    pre: PTState,
    post: PTState,
    inst: BqmIsingInstance,
    betas: Seq<i64>,
) -> bool {
    &&& post.wf(inst)
    &&& post.caches_ready()
    &&& post.nt() == pre.nt()
    &&& post.num_acceptances@.len() == pre.num_acceptances@.len()
    &&& post.diffusion_hist@.len() == pre.diffusion_hist@.len()
    &&& post.dir_tags@.len() == pre.dir_tags@.len()
    &&& forall|k: int|
        0 <= k < pre.nt() ==> pre.num_acceptances@[k] <= #[trigger] post.num_acceptances@[k]
            <= pre.num_acceptances@[k] + 1
    &&& pre.round_trips <= post.round_trips <= pre.round_trips + 2
    &&& forall|k: int|
        0 <= k < pre.nt() ==> (#[trigger] pre.diffusion_hist@[k]).0 <= post.diffusion_hist@[k].0
            <= pre.diffusion_hist@[k].0 + 1 && pre.diffusion_hist@[k].1
            <= post.diffusion_hist@[k].1 <= pre.diffusion_hist@[k].1 + 1
    &&& exists|mid1: PTState, mid2: PTState|
        #![trigger swap_pass_rel(betas, mid1, mid2, betas.len() - 1)]
        metro_stage_ok(inst, pre, mid1) && swap_pass_rel(betas, mid1, mid2, betas.len() - 1)
            && close_stage_ok(mid2, post)
}

/// One full sweep of a replica chain: a Metropolis sweep at every
/// rung, one swap pass over adjacent pairs, endpoint retagging, and a
/// diffusion observation.
pub fn chain_sweep(
    chain: &mut PTState,
    instance: &BqmIsingInstance,
    betas: &Vec<i64>,
    rng: &mut Xoshiro256PlusPlus,
)
    requires
        chain_sweep_pre(*old(chain), *instance, betas@),
    ensures
        chain_sweep_post(*old(chain), *final(chain), *instance, betas@),
{
    let nt = chain.states.len();
    let n = instance.size() as u32;
    let ghost inst = *instance;
    for k in 0..nt
        invariant
            instance.wf(),
            inst == *instance,
            betas_wf(betas@),
            betas@.len() == nt,
            nt == chain.states@.len(),
            n == inst.nspins(),
            chain.wf(inst),
            chain.caches_ready(),
            chain.num_acceptances == old(chain).num_acceptances,
            chain.diffusion_hist == old(chain).diffusion_hist,
            chain.dir_tags == old(chain).dir_tags,
            chain.round_trips == old(chain).round_trips,
            forall|u: int|
                0 <= u < k ==> sweep_rel(
                    inst,
                    old(chain).states@[u].arr@,
                    (#[trigger] chain.states@[u]).arr@,
                    inst.nspins(),
                ),
            forall|u: int|
                k <= u < nt ==> #[trigger] chain.states@[u] == old(chain).states@[u],
    {
        let sampler = IsingSampler::new(instance, betas[k], n);
        let ghost sb = chain.states@;
        let mut st = chain.states.remove(k);
        sampler.sweep(instance, &mut st, rng);
        chain.states.insert(k, st);
        proof {
            assert(chain.states@ =~= sb.update(k as int, chain.states@[k as int]));
            assert forall|u: int| 0 <= u < nt implies (#[trigger] chain.states@[u]).wf()
                && chain.states@[u].arr@.len() == inst.nspins() && inst.cache_ok(
                chain.states@[u],
            ) && chain.states@[u].energy_init by {
                if u != k as int {
                    assert(chain.states@[u] == sb[u]);
                }
            }
            assert forall|u: int| 0 <= u < k + 1 implies sweep_rel(
                inst,
                old(chain).states@[u].arr@,
                (#[trigger] chain.states@[u]).arr@,
                inst.nspins(),
            ) by {
                if u < k as int {
                    assert(chain.states@[u] == sb[u]);
                }
            }
        }
    }
    let ghost mid1 = *chain;
    pt_swap_pass(chain, instance, betas, rng);
    let ghost mid2 = *chain;
    if nt >= 2 {
        update_round_trip_tags(chain);
    }
    record_diffusion(chain);
    proof {
        assert(metro_stage_ok(inst, *old(chain), mid1));
        assert(swap_pass_rel(betas@, mid1, mid2, betas@.len() - 1));
        assert(close_stage_ok(mid2, *chain));
    }
}

/// Relies on rayon's par_iter_mut, zip and for_each: applies the
/// verified chain sweep to every (chain, generator) pair, one task
/// each, and joins before returning; each element is touched exactly
/// once, so the per-chain contract holds of every slot.
#[verifier::external_body]
pub(crate) fn par_chain_sweeps(
    chains: &mut Vec<PTState>,
    instance: &BqmIsingInstance,
    betas: &Vec<i64>,
    rngs: &mut Vec<Xoshiro256PlusPlus>,
)
    requires
        old(chains)@.len() == old(rngs)@.len(),
        forall|c: int|
            0 <= c < old(chains)@.len() ==> chain_sweep_pre(
                #[trigger] old(chains)@[c],
                *instance,
                betas@,
            ),
    ensures
        final(chains)@.len() == old(chains)@.len(),
        final(rngs)@.len() == old(rngs)@.len(),
        forall|c: int|
            0 <= c < old(chains)@.len() ==> chain_sweep_post(
                old(chains)@[c],
                #[trigger] final(chains)@[c],
                *instance,
                betas@,
            ),
{
    chains.par_iter_mut().zip(rngs.par_iter_mut()).for_each(
        |(c, r): (&mut PTState, &mut Xoshiro256PlusPlus)| chain_sweep(c, instance, betas, r),
    );
}

} // verus!
