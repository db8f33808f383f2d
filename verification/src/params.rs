//! Run parameters: the temperature ladder specification and the
//! knobs of the PT-ICM runner. Fractions and inverse temperatures are
//! Q47.16 fixed point.
use vstd::prelude::*;

use crate::fixp::{exp_q16, floor_div_i64, ln_q16, FIX_ONE};
use crate::pt::{betas_wf, BETA_MAX};

verus! {

/// Largest admitted number of ladder rungs.
pub const T_MAX: usize = 0x1_0000;

/// A geometric ladder specification.
#[derive(Clone, Copy, Debug)]
pub struct BetaSpec {
    /// Smallest inverse temperature, in Q47.16; positive.
    pub beta_min: i64,
    /// Largest inverse temperature, in Q47.16.
    pub beta_max: i64,
    /// Number of rungs.
    pub num_beta: u32,
}

/// The temperature ladder: either a geometric specification or an
/// explicit non-decreasing array.
#[derive(Clone, Debug)]
pub enum BetaOptions {
    /// Geometrically spaced rungs between two endpoints.
    Geometric(BetaSpec),
    /// An explicit ladder.
    Arr(Vec<i64>),
}

impl BetaOptions {
    /// A usable ladder description.
    pub open spec fn wf(self) -> bool {
        match self {
            BetaOptions::Geometric(b) => 1 <= b.beta_min <= b.beta_max <= BETA_MAX && 2
                <= b.num_beta <= T_MAX,
            BetaOptions::Arr(v) => betas_wf(v@) && v@.len() <= T_MAX,
        }
    }

    /// The number of rungs the ladder will have.
    pub open spec fn spec_len(self) -> int {
        match self {
            BetaOptions::Geometric(b) => b.num_beta as int,
            BetaOptions::Arr(v) => v@.len() as int,
        }
    }

    /// The hottest rung the materialized ladder will start with.
    pub open spec fn ladder_first(self) -> int {
        match self {
            BetaOptions::Geometric(b) => b.beta_min as int,
            BetaOptions::Arr(v) => v@[0] as int,
        }
    }

    /// The coldest rung the materialized ladder will end with.
    pub open spec fn ladder_last(self) -> int {
        match self {
            BetaOptions::Geometric(b) => b.beta_max as int,
            BetaOptions::Arr(v) => v@[v@.len() - 1] as int,
        }
    }

    /// Wrap a geometric specification.
    pub fn new_geometric(beta_min: i64, beta_max: i64, num_beta: u32) -> (r: BetaOptions)
        ensures
            r == BetaOptions::Geometric(BetaSpec { beta_min, beta_max, num_beta }),
    {
        BetaOptions::Geometric(BetaSpec { beta_min, beta_max, num_beta })
    }

    /// Materialize the ladder: a geometric specification becomes a
    /// log-spaced array with the two endpoints exact; an explicit
    /// array is returned as it stands. The result is always a valid
    /// non-decreasing ladder.
    pub fn get_beta_arr(&self) -> (r: Vec<i64>)
        requires
            self.wf(),
        ensures
            betas_wf(r@),
            r@.len() == self.spec_len(),
            r@[0] == self.ladder_first(),
            r@[r@.len() - 1] == self.ladder_last(),
            match self {
                BetaOptions::Geometric(b) => r@[0] == b.beta_min && r@[r@.len() - 1]
                    == b.beta_max,
                BetaOptions::Arr(v) => r@ == v@,
            },
    {
        match self {
            BetaOptions::Geometric(b) => {
                let nt = b.num_beta as usize;
                let lmin = ln_q16(b.beta_min);
                let lmax = ln_q16(b.beta_max);
                let mut r: Vec<i64> = Vec::new();
                r.push(b.beta_min);
                for i in 1..nt - 1
                    invariant
                        2 <= nt <= T_MAX,
                        1 <= b.beta_min <= b.beta_max <= BETA_MAX,
                        -12 * FIX_ONE <= lmin <= 31 * FIX_ONE,
                        -12 * FIX_ONE <= lmax <= 31 * FIX_ONE,
                        r@.len() == i,
                        r@[0] == b.beta_min,
                        forall|k: int| 0 <= k < i ==> 1 <= #[trigger] r@[k] <= b.beta_max,
                        forall|k: int| 0 <= k < i - 1 ==> #[trigger] r@[k] <= r@[k + 1],
                {
                    let span = lmax - lmin;
                    proof {
                        assert(-0x80_0000_0000 <= (i as int) * (span as int)
                            <= 0x80_0000_0000) by (nonlinear_arith)
                            requires
                                0 <= i as int <= 0x1_0000,
                                -43 * 65536 <= span as int <= 43 * 65536,
                        ;
                    }
                    let qd = floor_div_i64((i as i64) * span, (nt - 1) as i64);
                    proof {
                        let xx = (i as int) * (span as int);
                        let dd = (nt - 1) as int;
                        vstd::arithmetic::div_mod::lemma_fundamental_div_mod(xx, dd);
                        vstd::arithmetic::div_mod::lemma_mod_bound(xx, dd);
                        assert(-0x80_0000_0000 <= qd as int <= 0x80_0000_0000)
                            by (nonlinear_arith)
                            requires
                                qd as int == xx / dd,
                                xx == dd * (xx / dd) + (xx % dd),
                                0 <= (xx % dd) < dd,
                                dd >= 1,
                                -0x80_0000_0000 <= xx <= 0x80_0000_0000,
                        ;
                    }
                    let l = lmin + qd;
                    let lc = if l > 16 * FIX_ONE {
                        16 * FIX_ONE
                    } else if l < -16 * FIX_ONE {
                        -16 * FIX_ONE
                    } else {
                        l
                    };
                    let bv = exp_q16(lc);
                    let prev = r[i - 1];
                    let mut next = if bv < prev {
                        prev
                    } else {
                        bv
                    };
                    if next > b.beta_max {
                        next = b.beta_max;
                    }
                    proof {
                        assert(prev <= b.beta_max);
                    }
                    r.push(next);
                }
                let prev = r[r.len() - 1];
                proof {
                    assert(prev <= b.beta_max);
                }
                r.push(b.beta_max);
                r
            },
            BetaOptions::Arr(v) => {
                let mut r: Vec<i64> = Vec::new();
                let m = v.len();
                for i in 0..m
                    invariant
                        m == v@.len(),
                        r@.len() == i,
                        forall|k: int| 0 <= k < i ==> #[trigger] r@[k] == v@[k],
                {
                    r.push(v[i]);
                }
                proof {
                    assert(r@ =~= v@);
                }
                r
            },
        }
    }
}

/// Recognized options of a PT-ICM run.
#[derive(Clone, Debug)]
pub struct PtIcmParams {
    /// Number of sweeps; positive.
    pub num_sweeps: u32,
    /// Fraction of sweeps discarded as warm-up, Q47.16 in [0, 1).
    pub warmup_fraction: i64,
    /// The temperature ladder.
    pub beta: BetaOptions,
    /// Inverse temperature threshold above which cluster moves apply.
    pub lo_beta: i64,
    /// Whether isoenergetic cluster moves run at all.
    pub icm: bool,
    /// Number of independent replica chains; even when `icm` is set.
    pub num_replica_chains: u32,
    /// Worker threads for the parallel runner.
    pub threads: u32,
    /// Observable measurement stride, if sampling is on.
    pub sample: Option<u32>,
    /// State recording stride, if state sampling is on.
    pub sample_states: Option<u32>,
    /// Compression tier for recorded states: 0, 1 or 2.
    pub sample_limiting: Option<u8>,
}

impl PtIcmParams {
    /// Parameter sanity: a usable ladder, a positive bounded sweep
    /// count, positive strides, a unit-interval warm-up fraction and
    /// at least one chain.
    pub open spec fn wf(self) -> bool {
        &&& self.beta.wf()
        &&& 1 <= self.num_sweeps <= 0x4000_0000
        &&& 0 <= self.warmup_fraction < FIX_ONE
        &&& 0 <= self.lo_beta
        &&& 1 <= self.num_replica_chains <= 0x1_0000
        &&& match self.sample {
            Option::Some(s) => s >= 1,
            Option::None => true,
        }
        &&& match self.sample_states {
            Option::Some(s) => s >= 1,
            Option::None => true,
        }
        &&& match self.sample_limiting {
            Option::Some(l) => l <= 2,
            Option::None => true,
        }
    }
}

impl Default for PtIcmParams {
    /// The reference configuration: 256 sweeps with half warm-up, a
    /// geometric ladder of 8 rungs from 0.1 to 10, cluster moves on
    /// over 2 chains, single-threaded, observables every 32 sweeps and
    /// states every 64, uncompressed.
    fn default() -> (r: PtIcmParams)
        ensures
            r.num_sweeps == 256,
            r.warmup_fraction == FIX_ONE / 2,
            r.beta == BetaOptions::Geometric(
                BetaSpec { beta_min: 6554, beta_max: 655360, num_beta: 8 },
            ),
            r.lo_beta == FIX_ONE,
            r.icm,
            r.num_replica_chains == 2,
            r.threads == 1,
            r.sample == Option::Some(32u32),
            r.sample_states == Option::Some(64u32),
            r.sample_limiting == Option::Some(0u8),
            r.wf(),
    {
        PtIcmParams {
            num_sweeps: 256,
            warmup_fraction: 32768,
            beta: BetaOptions::Geometric(
                BetaSpec { beta_min: 6554, beta_max: 655360, num_beta: 8 },
            ),
            lo_beta: 65536,
            icm: true,
            num_replica_chains: 2,
            threads: 1,
            sample: Option::Some(32),
            sample_states: Option::Some(64),
            sample_limiting: Option::Some(0),
        }
    }
}

} // verus!
