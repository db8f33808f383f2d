//! The adaptive temperature-ladder optimizer: repeated PT-ICM runs
//! whose measured diffusion statistics reshape the interior of the
//! beta ladder through an inverse-CDF construction with a momentum
//! step in log space. The endpoints never move and the ladder stays
//! non-decreasing.
use vstd::prelude::*;

use crate::errors::PtError;
use crate::fixp::{exp_q16, floor_div_i64, isqrt_u64, ln_q16, FIX_ONE};
use crate::instance::BqmIsingInstance;
use crate::params::{BetaOptions, PtIcmParams, T_MAX};
use crate::pt::{betas_wf, PTState, BETA_MAX};
use crate::runner::PtIcmRunner;

verus! {

/// log10(e) in Q47.16, rounded down: converts natural to decimal
/// logarithms.
pub const LOG10_E_Q16: i64 = 28464;

/// Convergence threshold on the mean decimal-log ladder movement:
/// 0.02 in Q47.16.
pub const LADDER_TOL_Q16: i64 = 1310;

/// Saturation bound for the round-trip time statistic, Q47.16.
pub const TAU_CAP_Q16: i64 = 0x4000_0000;

/// Evaluate the piecewise-linear interpolant of `(xs, ys)` at `x`,
/// clamped to the curve's domain; `ys` values lie in `[0, FIX_ONE]`.
#[verifier::rlimit(60)]
fn interp_q16(xs: &Vec<i64>, ys: &Vec<i64>, x: i64) -> (r: i64)
    requires
        xs@.len() == ys@.len(),
        xs@.len() >= 2,
        betas_wf(xs@),
        forall|k: int| 0 <= k < ys@.len() ==> 0 <= #[trigger] ys@[k] <= FIX_ONE,
    ensures
        0 <= r <= FIX_ONE,
{
    let m = xs.len();
    if x <= xs[0] {
        return ys[0];
    }
    if x >= xs[m - 1] {
        return ys[m - 1];
    }
    let mut k: usize = 0;
    while k + 2 < m && xs[k + 1] < x
        invariant
            xs@.len() == ys@.len(),
            m == xs@.len() >= 2,
            k + 1 < m,
            betas_wf(xs@),
            forall|u: int| 0 <= u < ys@.len() ==> 0 <= #[trigger] ys@[u] <= FIX_ONE,
        decreases m - k,
    {
        k = k + 1;
    }
    let x0 = xs[k];
    let x1 = xs[k + 1];
    let y0 = ys[k];
    let y1 = ys[k + 1];
    if x1 <= x0 {
        return y0;
    }
    let cl = if x < x0 {
        x0
    } else if x > x1 {
        x1
    } else {
        x
    };
    proof {
        assert(-0x1_0000_0000 * 0x1_0000 <= (cl - x0) * (y1 as int - y0 as int)
            <= 0x1_0000_0000 * 0x1_0000) by (nonlinear_arith)
            requires
                0 <= cl - x0 <= 0x1_0000_0000,
                -0x1_0000 <= y1 as int - y0 as int <= 0x1_0000,
        ;
    }
    let num = (cl - x0) * (y1 - y0);
    let q = floor_div_i64(num, x1 - x0);
    proof {
        vstd::arithmetic::div_mod::lemma_fundamental_div_mod(num as int, (x1 - x0) as int);
        vstd::arithmetic::div_mod::lemma_mod_bound(num as int, (x1 - x0) as int);
        assert(-0x1_0000_0000_0000 <= (q as int) && (q as int) <= 0x1_0000_0000_0000)
            by (nonlinear_arith)
            requires
                q as int == num as int / ((x1 - x0) as int),
                num as int == ((x1 - x0) as int) * (num as int / ((x1 - x0) as int)) + (
                num as int % ((x1 - x0) as int)),
                0 <= (num as int % ((x1 - x0) as int)) < (x1 - x0) as int,
                1 <= (x1 - x0) as int <= 0x1_0000_0000,
                -0x1_0000_0000_0000 <= num as int <= 0x1_0000_0000_0000,
        ;
    }
    let v = y0 + q;
    if v < 0 {
        0
    } else if v > FIX_ONE {
        FIX_ONE
    } else {
        v
    }
}

/// Find, by bisection, a point of `[0, 1]` where the monotone curve
/// through `(betas, cdf)` crosses `level`; all in Q47.16.
#[verifier::rlimit(60)]
fn bisect_level(betas: &Vec<i64>, cdf: &Vec<i64>, level: i64) -> (x: i64)
    requires
        betas@.len() == cdf@.len(),
        betas@.len() >= 2,
        betas_wf(betas@),
        forall|k: int| 0 <= k < cdf@.len() ==> 0 <= #[trigger] cdf@[k] <= FIX_ONE,
    ensures
        0 <= x <= FIX_ONE,
{
    let bmin = betas[0];
    let bmax = betas[betas.len() - 1];
    proof {
        lemma_betas_sorted(betas@, 0, betas@.len() - 1);
    }
    let mut lo: i64 = 0;
    let mut hi: i64 = FIX_ONE;
    let mut it: u32 = 0;
    while it < 32
        invariant
            0 <= lo <= hi <= FIX_ONE,
            betas@.len() == cdf@.len(),
            betas@.len() >= 2,
            betas_wf(betas@),
            forall|k: int| 0 <= k < cdf@.len() ==> 0 <= #[trigger] cdf@[k] <= FIX_ONE,
            bmin == betas@[0],
            bmax == betas@[betas@.len() - 1],
            bmin <= bmax,
        decreases 32 - it,
    {
        let mid = lo + (hi - lo) / 2;
        // Map the unit interval onto the beta span.
        let span = bmax - bmin;
        proof {
            assert(0 <= mid * span <= 0x1_0000 * 0x1_0000_0000) by (nonlinear_arith)
                requires
                    0 <= mid <= 0x1_0000,
                    0 <= span <= 0x1_0000_0000,
            ;
        }
        let b = bmin + (mid * span) / FIX_ONE;
        let v = interp_q16(betas, cdf, b);
        if v < level {
            lo = mid;
        } else {
            hi = mid;
        }
        it = it + 1;
    }
    lo
}

/// A blended logarithm `(wa * ln a + wb * ln b) / 100` exponentiated
/// back, clamped to the valid beta range; `wa + wb == 100`.
fn log_blend(a: i64, b: i64, wa: i64, wb: i64) -> (r: i64)
    requires
        1 <= a <= BETA_MAX,
        1 <= b <= BETA_MAX,
        0 <= wa <= 100,
        0 <= wb <= 100,
        wa + wb == 100,
    ensures
        1 <= r <= BETA_MAX,
{
    let la = ln_q16(a);
    let lb = ln_q16(b);
    proof {
        assert(-100 * 31 * 65536 <= wa * (la as int) && wa * (la as int) <= 100 * 31 * 65536)
            by (nonlinear_arith)
            requires
                -12 * 65536 <= la as int <= 31 * 65536,
                0 <= wa <= 100,
        ;
        assert(-100 * 31 * 65536 <= wb * (lb as int) && wb * (lb as int) <= 100 * 31 * 65536)
            by (nonlinear_arith)
            requires
                -12 * 65536 <= lb as int <= 31 * 65536,
                0 <= wb <= 100,
        ;
    }
    let mix = (wa * la + wb * lb) / 100;
    let mixc = if mix > 16 * FIX_ONE {
        16 * FIX_ONE
    } else if mix < -16 * FIX_ONE {
        -16 * FIX_ONE
    } else {
        mix
    };
    let e = exp_q16(mixc);
    if e < 1 {
        1
    } else if e > BETA_MAX {
        BETA_MAX
    } else {
        e
    }
}

/// One-sided finite differences of a per-rung fraction with respect
/// to the ladder: central differences inside, one-sided at the ends,
/// zero where the rungs coincide.
#[verifier::rlimit(60)]
fn finite_diff(cur_betas: &Vec<i64>, fvec: &Vec<i64>) -> (r: Vec<i64>)
    requires
        betas_wf(cur_betas@),
        cur_betas@.len() == fvec@.len(),
        cur_betas@.len() >= 2,
        forall|u: int| 0 <= u < fvec@.len() ==> 0 <= #[trigger] fvec@[u] <= FIX_ONE,
    ensures
        r@.len() == cur_betas@.len(),
        forall|u: int| 0 <= u < r@.len() ==> -0x1_0000_0000 <= #[trigger] r@[u] <= 0x1_0000_0000,
{
    let nt = cur_betas.len();
    let mut r: Vec<i64> = Vec::new();
    let mut k: usize = 0;
    while k < nt
        invariant
            nt == cur_betas@.len() >= 2,
            cur_betas@.len() == fvec@.len(),
            betas_wf(cur_betas@),
            forall|u: int| 0 <= u < nt ==> 0 <= #[trigger] fvec@[u] <= FIX_ONE,
            k <= nt,
            r@.len() == k,
            forall|u: int| 0 <= u < k ==> -0x1_0000_0000 <= #[trigger] r@[u] <= 0x1_0000_0000,
        decreases nt - k,
    {
        let (lo, hi) = if k == 0 {
            (0usize, 1usize)
        } else if k == nt - 1 {
            (nt - 2, nt - 1)
        } else {
            (k - 1, k + 1)
        };
        let db = cur_betas[hi] - cur_betas[lo];
        proof {
            lemma_betas_sorted(cur_betas@, lo as int, hi as int);
        }
        let dfn = fvec[hi] - fvec[lo];
        let slope: i64 = if db <= 0 {
            0
        } else {
            proof {
                assert(-0x1_0000 * 65536 <= (dfn as int) * 65536 && (dfn as int) * 65536
                    <= 0x1_0000 * 65536) by (nonlinear_arith)
                    requires
                        -0x1_0000 <= dfn as int <= 0x1_0000,
                ;
            }
            let num = dfn * 65536;
            let q = crate::fixp::floor_div_i64(num, db);
            proof {
                vstd::arithmetic::div_mod::lemma_fundamental_div_mod(num as int, db as int);
                vstd::arithmetic::div_mod::lemma_mod_bound(num as int, db as int);
                assert(-0x1_0000_0000 <= (q as int) && (q as int) <= 0x1_0000_0000)
                    by (nonlinear_arith)
                    requires
                        q as int == num as int / (db as int),
                        num as int == (db as int) * (num as int / (db as int)) + (num as int
                            % (db as int)),
                        0 <= (num as int % (db as int)) < db as int,
                        1 <= db as int,
                        -0x1_0000_0000 <= num as int <= 0x1_0000_0000,
                ;
            }
            q
        };
        r.push(slope);
        k = k + 1;
    }
    r
}

/// Round trips summed over the first `c` chains.
pub open spec fn round_trip_sum(chains: Seq<PTState>, c: int) -> int
    decreases c,
{
    if c <= 0 {
        0
    } else {
        round_trip_sum(chains, c - 1) + chains[c - 1].round_trips
    }
}

/// The toward-max diffusion observations at rung `k`, summed over the
/// first `c` chains.
pub open spec fn hist_max_sum(chains: Seq<PTState>, k: int, c: int) -> int
    decreases c,
{
    if c <= 0 {
        0
    } else {
        hist_max_sum(chains, k, c - 1) + chains[c - 1].diffusion_hist@[k].0
    }
}

/// The toward-min diffusion observations at rung `k`, summed over the
/// first `c` chains.
pub open spec fn hist_min_sum(chains: Seq<PTState>, k: int, c: int) -> int
    decreases c,
{
    if c <= 0 {
        0
    } else {
        hist_min_sum(chains, k, c - 1) + chains[c - 1].diffusion_hist@[k].1
    }
}

/// The aggregated diffusion fraction, round-trip time and resulting
/// ladder statistics of one instance's chains: per rung the fraction
/// n_maxbeta / (n_minbeta + n_maxbeta) of observations whose latest
/// endpoint visit was the coldest rung, and the round-trip time
/// num_sweeps * M * T / round_trips, both in Q47.16, the latter
/// saturated and zero where no round trip completed.
#[verifier::rlimit(60)]
fn gather_stats(chains: &Vec<PTState>, num_betas: usize, num_sweeps: u32) -> (r: (Vec<i64>, i64))
    requires
        chains@.len() >= 1,
        chains@.len() <= 0x1_0000,
        forall|c: int|
            0 <= c < chains@.len() ==> (#[trigger] chains@[c]).diffusion_hist@.len()
                == num_betas,
        1 <= num_betas <= 0x1_0000,
        num_sweeps <= 0x4000_0000,
    ensures
        r.0@.len() == num_betas,
        forall|k: int| 0 <= k < num_betas ==> 0 <= #[trigger] r.0@[k] <= FIX_ONE,
        0 <= r.1 <= TAU_CAP_Q16,
        forall|k: int|
            0 <= k < num_betas ==> (#[trigger] r.0@[k]) as int == (if hist_max_sum(
                chains@,
                k,
                chains@.len() as int,
            ) + hist_min_sum(chains@, k, chains@.len() as int) == 0 {
                0int
            } else {
                hist_min_sum(chains@, k, chains@.len() as int) * 65536 / (hist_max_sum(
                    chains@,
                    k,
                    chains@.len() as int,
                ) + hist_min_sum(chains@, k, chains@.len() as int))
            }),
        r.1 as int == (if round_trip_sum(chains@, chains@.len() as int) == 0 {
            0int
        } else if (num_sweeps as int) * (chains@.len() as int) * (num_betas as int) * 65536
            / round_trip_sum(chains@, chains@.len() as int) > TAU_CAP_Q16 as int {
            TAU_CAP_Q16 as int
        } else {
            (num_sweeps as int) * (chains@.len() as int) * (num_betas as int) * 65536
                / round_trip_sum(chains@, chains@.len() as int)
        }),
{
    let m = chains.len();
    // Aggregate the histogram columns and the round trips.
    let mut fvec: Vec<i64> = Vec::new();
    for k in 0..num_betas
        invariant
            m == chains@.len() <= 0x1_0000,
            forall|c: int|
                0 <= c < chains@.len() ==> (#[trigger] chains@[c]).diffusion_hist@.len()
                    == num_betas,
            fvec@.len() == k,
            forall|u: int| 0 <= u < k ==> 0 <= #[trigger] fvec@[u] <= FIX_ONE,
            forall|u: int|
                0 <= u < k ==> (#[trigger] fvec@[u]) as int == (if hist_max_sum(
                    chains@,
                    u,
                    chains@.len() as int,
                ) + hist_min_sum(chains@, u, chains@.len() as int) == 0 {
                    0int
                } else {
                    hist_min_sum(chains@, u, chains@.len() as int) * 65536 / (hist_max_sum(
                        chains@,
                        u,
                        chains@.len() as int,
                    ) + hist_min_sum(chains@, u, chains@.len() as int))
                }),
    {
        let mut n_to_max: u128 = 0;
        let mut n_to_min: u128 = 0;
        for c in 0..m
            invariant
                m == chains@.len() <= 0x1_0000,
                0 <= (k as int) < num_betas,
                forall|c2: int|
                    0 <= c2 < chains@.len() ==> (#[trigger] chains@[c2]).diffusion_hist@.len()
                        == num_betas,
                n_to_max <= (c as int) * 0xffff_ffff_ffff_ffff,
                n_to_min <= (c as int) * 0xffff_ffff_ffff_ffff,
                n_to_max as int == hist_max_sum(chains@, k as int, c as int),
                n_to_min as int == hist_min_sum(chains@, k as int, c as int),
        {
            let (h0, h1) = chains[c].diffusion_hist[k];
            proof {
                assert((c as int) * 0xffff_ffff_ffff_ffff + 0xffff_ffff_ffff_ffff == (c as int
                    + 1) * 0xffff_ffff_ffff_ffff) by (nonlinear_arith);
                assert((c as int + 1) * 0xffff_ffff_ffff_ffff <= 0x1_0000
                    * 0xffff_ffff_ffff_ffff) by (nonlinear_arith)
                    requires
                        c as int + 1 <= 0x1_0000,
                ;
            }
            n_to_max = n_to_max + h0 as u128;
            n_to_min = n_to_min + h1 as u128;
        }
        // f = n_maxbeta / (n_minbeta + n_maxbeta): the fraction whose
        // latest endpoint visit was the coldest rung.
        let tot = n_to_max + n_to_min;
        let f: i64 = if tot == 0 {
            0
        } else {
            let q = (n_to_min * 65536) / tot;
            proof {
                vstd::arithmetic::div_mod::lemma_fundamental_div_mod(
                    (n_to_min * 65536) as int,
                    tot as int,
                );
                vstd::arithmetic::div_mod::lemma_mod_bound((n_to_min * 65536) as int, tot as int);
                assert(0 <= (q as int) && (q as int) <= 65536) by (nonlinear_arith)
                    requires
                        q as int == ((n_to_min * 65536) as int) / (tot as int),
                        (n_to_min * 65536) as int == (tot as int) * (((n_to_min * 65536) as int)
                            / (tot as int)) + (((n_to_min * 65536) as int) % (tot as int)),
                        0 <= (((n_to_min * 65536) as int) % (tot as int)) < tot as int,
                        1 <= tot as int,
                        0 <= (n_to_min * 65536) as int <= (tot as int) * 65536,
                ;
            }
            q as i64
        };
        fvec.push(f);
    }
    // Round-trip time per replica: num_sweeps * M * T / round_trips,
    // saturated.
    let mut rts: u64 = 0;
    for c in 0..m
        invariant
            m == chains@.len() <= 0x1_0000,
            rts <= (c as int) * 0xffff_ffff,
            rts as int == round_trip_sum(chains@, c as int),
    {
        let r = chains[c].round_trips;
        proof {
            assert((c as int) * 0xffff_ffff + 0xffff_ffff == (c as int + 1) * 0xffff_ffff)
                by (nonlinear_arith);
            assert((c as int + 1) * 0xffff_ffff <= 0x1_0000 * 0xffff_ffff) by (nonlinear_arith)
                requires
                    c as int + 1 <= 0x1_0000,
            ;
        }
        rts = rts + r as u64;
    }
    let tau: i64 = if rts == 0 {
        0
    } else {
        proof {
            assert((num_sweeps as int) * (m as int) <= 0x4000_0000 * 0x1_0000)
                by (nonlinear_arith)
                requires
                    num_sweeps as int <= 0x4000_0000,
                    m as int <= 0x1_0000,
                    0 <= num_sweeps as int,
                    0 <= m as int,
            ;
            assert((num_sweeps as int) * (m as int) * (num_betas as int) <= 0x4000_0000
                * 0x1_0000 * 0x1_0000) by (nonlinear_arith)
                requires
                    0 <= (num_sweeps as int) * (m as int) <= 0x4000_0000 * 0x1_0000,
                    0 <= num_betas as int <= 0x1_0000,
            ;
            assert((num_sweeps as int) * (m as int) * (num_betas as int) * 65536 <= 0x4000_0000
                * 0x1_0000 * 0x1_0000 * 65536) by (nonlinear_arith)
                requires
                    0 <= (num_sweeps as int) * (m as int) * (num_betas as int) <= 0x4000_0000
                        * 0x1_0000 * 0x1_0000,
            ;
        }
        let num: u128 = (num_sweeps as u128) * (m as u128) * (num_betas as u128) * 65536;
        let q = num / (rts as u128);
        if q > TAU_CAP_Q16 as u128 {
            TAU_CAP_Q16
        } else {
            q as i64
        }
    };
    (fvec, tau)
}

/// Iteratively refine the beta ladder from measured diffusion flows:
/// run the engine on every instance, weight each instance's diffusion
/// slope by its round-trip time, turn the ensemble sum into a density
/// over beta, and move the interior rungs to equidistribute it, with a
/// momentum-smoothed log-space step. The endpoints are held fixed and
/// the returned ladder is non-decreasing; degenerate statistics skip
/// the iteration.
#[verifier::rlimit(100)]
pub fn pt_optimize_beta(
    instances: &Vec<BqmIsingInstance>,
    params: &PtIcmParams,
    num_iters: u32,
) -> (r: Result<(PtIcmParams, Vec<Vec<i64>>), PtError>)
    requires
        instances@.len() >= 1,
        instances@.len() <= 1024,
        forall|i: int| 0 <= i < instances@.len() ==> (#[trigger] instances@[i]).wf(),
    ensures
        match r {
            Ok(out) => {
                &&& params.wf()
                &&& !(params.icm && params.num_replica_chains % 2 == 1)
                &&& out.0.beta matches BetaOptions::Arr(v) && betas_wf(v@) && v@.len()
                    == params.beta.spec_len() && v@[0] == params.beta.ladder_first() && v@[v@.len()
                    - 1] == params.beta.ladder_last()
                &&& out.0.wf()
                &&& out.0.num_sweeps == params.num_sweeps
                &&& out.0.warmup_fraction == params.warmup_fraction
                &&& out.0.lo_beta == params.lo_beta
                &&& out.0.icm == params.icm
                &&& out.0.num_replica_chains == params.num_replica_chains
                &&& out.0.threads == params.threads
                &&& out.0.sample == params.sample
                &&& out.0.sample_states == params.sample_states
                &&& out.0.sample_limiting == params.sample_limiting
                &&& out.1@.len() <= num_iters
                &&& forall|r: int|
                    0 <= r < out.1@.len() ==> (#[trigger] out.1@[r])@.len() == instances@.len()
                &&& forall|r: int, u: int|
                    0 <= r < out.1@.len() && 0 <= u < instances@.len() ==> 0
                        <= #[trigger] out.1@[r]@[u] <= TAU_CAP_Q16
            },
            Err(_) => !params.wf() || (params.icm && params.num_replica_chains % 2 == 1)
                || params.beta.spec_len() < 2,
        },
{
    // Validate once through a runner construction on the first
    // instance.
    let probe = PtIcmRunner::new(&instances[0], params);
    let beta0 = match probe {
        Ok(_) => params.beta.get_beta_arr(),
        Err(e) => {
            return Err(e);
        },
    };
    let nt = beta0.len();
    if nt < 2 {
        return Err(PtError::new("ladder optimization needs at least two rungs"));
    }
    let ghost bmin0 = beta0@[0];
    let ghost bmax0 = beta0@[nt - 1];
    proof {
        assert(bmin0 == params.beta.ladder_first());
        assert(bmax0 == params.beta.ladder_last());
    }
    let mut cur_params = clone_params_pub(params);
    let mut cur_betas = beta0;
    // Momentum state for the interior rungs.
    let mut momentum: Vec<i64> = Vec::new();
    for j in 0..nt
        invariant
            nt == cur_betas@.len(),
            momentum@.len() == j,
            betas_wf(cur_betas@),
            forall|u: int| 0 <= u < j ==> 1 <= #[trigger] momentum@[u] <= BETA_MAX,
    {
        let b = cur_betas[j];
        momentum.push(
            if b < 1 {
                1
            } else {
                b
            },
        );
    }
    let mut tau_hist: Vec<Vec<i64>> = Vec::new();
    let num_instances = instances.len();
    let mut init_states: Vec<Option<Vec<PTState>>> = Vec::new();
    for _i in 0..num_instances
        invariant
            init_states@.len() == _i,
            forall|u: int| 0 <= u < _i ==> (#[trigger] init_states@[u]) is None,
    {
        init_states.push(Option::None);
    }
    let mut iter: u32 = 0;
    while iter < num_iters
        invariant
            instances@.len() == num_instances >= 1,
            instances@.len() <= 1024,
            forall|i: int| 0 <= i < instances@.len() ==> (#[trigger] instances@[i]).wf(),
            params.wf(),
            !(params.icm && params.num_replica_chains % 2 == 1),
            cur_params.wf(),
            !(cur_params.icm && cur_params.num_replica_chains % 2 == 1),
            cur_params.num_sweeps == params.num_sweeps,
            cur_params.num_replica_chains == params.num_replica_chains,
            cur_params.icm == params.icm,
            cur_params.warmup_fraction == params.warmup_fraction,
            cur_params.lo_beta == params.lo_beta,
            cur_params.threads == params.threads,
            cur_params.sample == params.sample,
            cur_params.sample_states == params.sample_states,
            cur_params.sample_limiting == params.sample_limiting,
            cur_betas@.len() == nt,
            nt == params.beta.spec_len(),
            2 <= nt <= T_MAX,
            betas_wf(cur_betas@),
            cur_betas@[0] == bmin0,
            cur_betas@[nt - 1] == bmax0,
            bmin0 == params.beta.ladder_first(),
            bmax0 == params.beta.ladder_last(),
            cur_params.beta matches BetaOptions::Arr(v) ==> v@ == cur_betas@,
            momentum@.len() == nt,
            forall|u: int| 0 <= u < nt ==> 1 <= #[trigger] momentum@[u] <= BETA_MAX,
            tau_hist@.len() <= iter,
            iter <= num_iters,
            forall|r: int|
                0 <= r < tau_hist@.len() ==> (#[trigger] tau_hist@[r])@.len() == num_instances,
            forall|r: int, u: int|
                0 <= r < tau_hist@.len() && 0 <= u < num_instances ==> 0
                    <= #[trigger] tau_hist@[r]@[u] <= TAU_CAP_Q16,
            cur_params.beta.spec_len() == nt,
            init_states@.len() == num_instances,
            forall|u: int|
                0 <= u < num_instances ==> ((#[trigger] init_states@[u]) matches Option::Some(
                    st,
                ) ==> init_ok(st@, instances@[u], cur_betas@, cur_params)),
        ensures
            cur_betas@.len() == nt,
            betas_wf(cur_betas@),
            cur_betas@[0] == bmin0,
            cur_betas@[nt - 1] == bmax0,
            cur_params.wf(),
            cur_params.num_sweeps == params.num_sweeps,
            cur_params.warmup_fraction == params.warmup_fraction,
            cur_params.lo_beta == params.lo_beta,
            cur_params.icm == params.icm,
            cur_params.num_replica_chains == params.num_replica_chains,
            cur_params.threads == params.threads,
            cur_params.sample == params.sample,
            cur_params.sample_states == params.sample_states,
            cur_params.sample_limiting == params.sample_limiting,
            tau_hist@.len() <= num_iters,
            forall|r: int|
                0 <= r < tau_hist@.len() ==> (#[trigger] tau_hist@[r])@.len() == num_instances,
            forall|r: int, u: int|
                0 <= r < tau_hist@.len() && 0 <= u < num_instances ==> 0
                    <= #[trigger] tau_hist@[r]@[u] <= TAU_CAP_Q16,
            nt == params.beta.spec_len(),
            2 <= nt <= T_MAX,
        decreases num_iters - iter,
    {
        // Run the engine on every instance with the current ladder.
        let m = cur_params.num_replica_chains as usize;
        let t_cnt = nt;
        let mut wsum: Vec<i64> = zero_vec(t_cnt);
        let mut taus: Vec<i64> = Vec::new();
        let mut new_states: Vec<Option<Vec<PTState>>> = Vec::new();
        for ii in 0..num_instances
            invariant
                instances@.len() == num_instances,
                instances@.len() <= 1024,
                forall|i: int| 0 <= i < instances@.len() ==> (#[trigger] instances@[i]).wf(),
                cur_params.wf(),
                !(cur_params.icm && cur_params.num_replica_chains % 2 == 1),
                cur_betas@.len() == nt >= 2,
                nt <= T_MAX,
                t_cnt == nt,
                cur_params.beta.spec_len() == nt,
                cur_params.num_sweeps <= 0x4000_0000,
                betas_wf(cur_betas@),
                cur_params.beta matches BetaOptions::Arr(v) ==> v@ == cur_betas@,
                wsum@.len() == nt,
                forall|u: int|
                    0 <= u < nt ==> -0x1000_0000_0000_0000 <= #[trigger] wsum@[u]
                        <= 0x1000_0000_0000_0000,
                forall|u: int|
                    0 <= u < nt ==> -(ii as int) * 0x4000_0000_0000 <= #[trigger] wsum@[u] <= (
                    ii as int) * 0x4000_0000_0000,
                taus@.len() == ii,
                forall|u: int| 0 <= u < ii ==> 0 <= #[trigger] taus@[u] <= TAU_CAP_Q16,
                new_states@.len() == ii,
                init_states@.len() == num_instances,
                forall|u: int|
                    0 <= u < num_instances ==> ((#[trigger] init_states@[u]) matches
                    Option::Some(st) ==> init_ok(st@, instances@[u], cur_betas@, cur_params)),
                forall|u: int|
                    0 <= u < ii ==> ((#[trigger] new_states@[u]) matches Option::Some(st)
                        && init_ok(st@, instances@[u], cur_betas@, cur_params)),
        {
            let inst = &instances[ii];
            let runner = match PtIcmRunner::new(inst, &cur_params) {
                Ok(rr) => rr,
                Err(_) => {
                    proof {
                        assert(false);
                    }
                    vstd::pervasive::unreached()
                },
            };
            let ghost before_init = init_states@;
            let prev = init_states.remove(ii);
            init_states.insert(ii, Option::None);
            proof {
                assert(init_states@ =~= before_init.update(ii as int, Option::None));
                assert(prev == before_init[ii as int]);
                let pg = prev;
                if pg is Some {
                    let stv = pg->Some_0;
                    assert(init_ok(stv@, instances@[ii as int], cur_betas@, cur_params));
                    assert(runner.chains_ok(stv@)) by {
                        assert(*runner.instance == instances@[ii as int]);
                        assert(runner.beta_vec@.len() == cur_betas@.len());
                    }
                    assert forall|c: int| 0 <= c < stv@.len() implies crate::runner::chain_budget(
                        #[trigger] stv@[c],
                        runner.params.num_sweeps as int,
                    ) by {
                        assert(stv@[c].round_trips == 0);
                        assert forall|k9: int| 0 <= k9 < stv@[c].nt() implies
                            #[trigger] stv@[c].num_acceptances@[k9] + (
                        runner.params.num_sweeps as int) <= u32::MAX by {
                            assert(stv@[c].num_acceptances@[k9] == 0);
                        }
                        assert forall|k9: int| 0 <= k9 < stv@[c].nt() implies (
                        #[trigger] stv@[c].diffusion_hist@[k9]).0 + (
                        runner.params.num_sweeps as int) <= u64::MAX
                            && stv@[c].diffusion_hist@[k9].1 + (
                        runner.params.num_sweeps as int) <= u64::MAX by {
                            assert(stv@[c].diffusion_hist@[k9] == (0u64, 0u64));
                        }
                    }
                }
            }
            let out = runner.run(prev);
            let chains = out.2;
            proof {
                assert forall|c: int| 0 <= c < chains@.len() implies (
                #[trigger] chains@[c]).diffusion_hist@.len() == t_cnt by {
                    assert(chains@[c].wf(*runner.instance));
                    assert(chains@[c].nt() == runner.beta_vec@.len());
                }
            }
            let (fvec, tau) = gather_stats(&chains, t_cnt, cur_params.num_sweeps);
            // Weight this instance's diffusion slope by its round-trip
            // time before it enters the ensemble sum: an instance with
            // no round trips contributes nothing.
            let dfv = finite_diff(&cur_betas, &fvec);
            let mut k2: usize = 0;
            while k2 < t_cnt
                invariant
                    wsum@.len() == nt,
                    dfv@.len() == nt,
                    t_cnt == nt,
                    k2 <= nt,
                    0 <= (ii as int) < 1024,
                    0 <= tau <= TAU_CAP_Q16,
                    forall|u: int|
                        0 <= u < nt ==> -0x1_0000_0000 <= #[trigger] dfv@[u] <= 0x1_0000_0000,
                    forall|u: int|
                        0 <= u < nt ==> -0x1000_0000_0000_0000 <= #[trigger] wsum@[u]
                            <= 0x1000_0000_0000_0000,
                    forall|u: int|
                        k2 <= u < nt ==> -(ii as int) * 0x4000_0000_0000 <= #[trigger] wsum@[u]
                            <= (ii as int) * 0x4000_0000_0000,
                    forall|u: int|
                        0 <= u < k2 ==> -(ii as int + 1) * 0x4000_0000_0000
                            <= #[trigger] wsum@[u] <= (ii as int + 1) * 0x4000_0000_0000,
                decreases nt - k2,
            {
                let wterm = crate::fixp::mul_q16(tau, dfv[k2]);
                proof {
                    vstd::arithmetic::div_mod::lemma_fundamental_div_mod(
                        (tau as int) * (dfv@[k2 as int] as int),
                        65536,
                    );
                    vstd::arithmetic::div_mod::lemma_mod_bound(
                        (tau as int) * (dfv@[k2 as int] as int),
                        65536,
                    );
                    assert(-0x4000_0000 * 0x1_0000_0000 <= (tau as int) * (
                    dfv@[k2 as int] as int) && (tau as int) * (dfv@[k2 as int] as int)
                        <= 0x4000_0000 * 0x1_0000_0000) by (nonlinear_arith)
                        requires
                            0 <= tau as int <= 0x4000_0000,
                            -0x1_0000_0000 <= dfv@[k2 as int] as int <= 0x1_0000_0000,
                    ;
                    assert(-0x4000_0000_0000 <= (wterm as int) && (wterm as int)
                        <= 0x4000_0000_0000) by (nonlinear_arith)
                        requires
                            wterm as int == (tau as int) * (dfv@[k2 as int] as int) / 65536,
                            (tau as int) * (dfv@[k2 as int] as int) == 65536 * ((tau as int) * (
                            dfv@[k2 as int] as int) / 65536) + ((tau as int) * (
                            dfv@[k2 as int] as int) % 65536),
                            0 <= ((tau as int) * (dfv@[k2 as int] as int) % 65536) < 65536,
                            -0x4000_0000 * 0x1_0000_0000 <= (tau as int) * (
                            dfv@[k2 as int] as int) <= 0x4000_0000 * 0x1_0000_0000,
                    ;
                    assert((ii as int) * 0x4000_0000_0000 + 0x4000_0000_0000 == (ii as int + 1)
                        * 0x4000_0000_0000) by (nonlinear_arith);
                    assert((ii as int + 1) * 0x4000_0000_0000 <= 1024 * 0x4000_0000_0000)
                        by (nonlinear_arith)
                        requires
                            ii as int + 1 <= 1024,
                    ;
                }
                let v = wsum[k2] + wterm;
                wsum.set(k2, v);
                k2 = k2 + 1;
            }
            taus.push(tau);
            let mut reset = chains;
            let nr = reset.len();
            let mut c2: usize = 0;
            while c2 < nr
                invariant
                    nr == reset@.len(),
                    c2 <= nr,
                    runner.wf(),
                    runner.chains_ok(reset@),
                    *runner.instance == instances@[ii as int],
                    runner.params.num_replica_chains == cur_params.num_replica_chains,
                    runner.beta_vec@.len() == nt,
                    forall|u: int|
                        0 <= u < c2 ==> (#[trigger] reset@[u]).round_trips == 0 && (forall|
                            k3: int,
                        |
                            0 <= k3 < reset@[u].nt()
                                ==> #[trigger] reset@[u].num_acceptances@[k3] == 0) && (forall|
                            k3: int,
                        |
                            0 <= k3 < reset@[u].nt() ==> #[trigger] reset@[u].diffusion_hist@[k3]
                                == (0u64, 0u64)),
                decreases nr - c2,
            {
                let ghost before = reset@;
                let mut ch = reset.remove(c2);
                ch.reset_tags();
                reset.insert(c2, ch);
                proof {
                    assert(reset@ =~= before.update(c2 as int, reset@[c2 as int]));
                    assert forall|u: int| 0 <= u < nr implies (#[trigger] reset@[u]).wf(
                        *runner.instance,
                    ) && reset@[u].caches_ready() && reset@[u].nt()
                        == runner.beta_vec@.len() by {
                        if u != c2 as int {
                            assert(reset@[u] == before[u]);
                        } else {
                            assert(reset@[u].states == before[u].states);
                        }
                    }
                }
                c2 = c2 + 1;
            }
            new_states.push(Option::Some(reset));
            proof {
                assert(init_ok(
                    new_states@[ii as int]->Some_0@,
                    instances@[ii as int],
                    cur_betas@,
                    cur_params,
                ));
            }
        }
        init_states = new_states;
        let ghost th_before = tau_hist@;
        tau_hist.push(taus);
        proof {
            assert forall|r: int| 0 <= r < tau_hist@.len() implies (
            #[trigger] tau_hist@[r])@.len() == num_instances by {
                if r < th_before.len() {
                    assert(tau_hist@[r] == th_before[r]);
                }
            }
            assert forall|r: int, u: int|
                0 <= r < tau_hist@.len() && 0 <= u < num_instances implies 0
                <= #[trigger] tau_hist@[r]@[u] <= TAU_CAP_Q16 by {
                if r < th_before.len() {
                    assert(tau_hist@[r] == th_before[r]);
                }
            }
        }
        let cdf_opt = density_cdf(&cur_betas, &wsum);
        let cdf = match cdf_opt {
            Option::Some(c) => c,
            Option::None => {
                // Degenerate diffusion statistics: keep the ladder and
                // go on.
                iter = iter + 1;
                continue ;
            },
        };
        let (next, err_sum) = refine_interior(&cur_betas, &cdf, &mut momentum);
        cur_betas = next;
        let arr_copy = copy_vec(&cur_betas);
        cur_params = PtIcmParams {
            num_sweeps: cur_params.num_sweeps,
            warmup_fraction: cur_params.warmup_fraction,
            beta: BetaOptions::Arr(arr_copy),
            lo_beta: cur_params.lo_beta,
            icm: cur_params.icm,
            num_replica_chains: cur_params.num_replica_chains,
            threads: cur_params.threads,
            sample: cur_params.sample,
            sample_states: cur_params.sample_states,
            sample_limiting: cur_params.sample_limiting,
        };
        proof {
            assert(cur_params.beta.wf());
        }
        // Convergence test on the mean decimal-log movement of the
        // interior rungs.
        let err_mean = err_sum / (nt as i64);
        iter = iter + 1;
        if err_mean < LADDER_TOL_Q16 {
            break ;
        }
    }
    let final_arr = copy_vec(&cur_betas);
    let out_params = PtIcmParams {
        num_sweeps: cur_params.num_sweeps,
        warmup_fraction: cur_params.warmup_fraction,
        beta: BetaOptions::Arr(final_arr),
        lo_beta: cur_params.lo_beta,
        icm: cur_params.icm,
        num_replica_chains: cur_params.num_replica_chains,
        threads: cur_params.threads,
        sample: cur_params.sample,
        sample_states: cur_params.sample_states,
        sample_limiting: cur_params.sample_limiting,
    };
    Ok((out_params, tau_hist))
}


/// Non-decreasing ladders are monotone across any pair of rungs.
proof fn lemma_betas_sorted(b: Seq<i64>, i: int, j: int)
    requires
        betas_wf(b),
        0 <= i <= j < b.len(),
    ensures
        b[i] <= b[j],
    decreases j - i,
{
    if i < j {
        lemma_betas_sorted(b, i + 1, j);
    }
}

/// Turn the summed diffusion fractions into the normalized cumulative
/// density over the ladder: quadrature weights, clamped weighted
/// finite differences, square root, trapezoid averaging and
/// normalization. Degenerate statistics yield nothing.
#[verifier::rlimit(100)]
fn density_cdf(cur_betas: &Vec<i64>, wdd: &Vec<i64>) -> (r: Option<Vec<i64>>)
    requires
        betas_wf(cur_betas@),
        cur_betas@.len() == wdd@.len(),
        2 <= cur_betas@.len() <= T_MAX,
        forall|u: int|
            0 <= u < wdd@.len() ==> -0x1000_0000_0000_0000 <= #[trigger] wdd@[u]
                <= 0x1000_0000_0000_0000,
    ensures
        match r {
            Option::Some(cdf) => cdf@.len() == cur_betas@.len() && forall|u: int|
                0 <= u < cdf@.len() ==> 0 <= #[trigger] cdf@[u] <= FIX_ONE,
            Option::None => true,
        },
{
    let nt = cur_betas.len();
    // Beta-quadrature weights of the current ladder.
    let mut weights: Vec<i64> = Vec::new();
    weights.push((cur_betas[1] - cur_betas[0]) / 2);
    let mut k3: usize = 1;
    while k3 < nt - 1
        invariant
            cur_betas@.len() == nt >= 2,
            betas_wf(cur_betas@),
            1 <= k3 <= nt - 1,
            weights@.len() == k3,
            forall|u: int| 0 <= u < k3 ==> 0 <= #[trigger] weights@[u] <= BETA_MAX,
        decreases nt - k3,
    {
        proof {
            lemma_betas_sorted(cur_betas@, k3 - 1, k3 + 1);
        }
        weights.push((cur_betas[k3 + 1] - cur_betas[k3 - 1]) / 2);
        k3 = k3 + 1;
    }
    weights.push((cur_betas[nt - 1] - cur_betas[nt - 2]) / 2);
    // The weighted slope sums divided by the quadrature weights;
    // negatives clamp to zero; the square root gives the unnormalized
    // density.
    let mut eta: Vec<i64> = Vec::new();
    let mut k4: usize = 0;
    while k4 < nt
        invariant
            cur_betas@.len() == nt >= 2,
            betas_wf(cur_betas@),
            wdd@.len() == nt,
            weights@.len() == nt,
            forall|u: int|
                0 <= u < nt ==> -0x1000_0000_0000_0000 <= #[trigger] wdd@[u]
                    <= 0x1000_0000_0000_0000,
            forall|u: int| 0 <= u < nt ==> 0 <= #[trigger] weights@[u] <= BETA_MAX,
            k4 <= nt,
            eta@.len() == k4,
            forall|u: int| 0 <= u < k4 ==> 0 <= #[trigger] eta@[u] <= 0x1_0000_0000,
        decreases nt - k4,
    {
        let slope = wdd[k4];
        let w = weights[k4];
        let e2: i64 = if w <= 0 || slope <= 0 {
            0
        } else {
            proof {
                assert(0 <= (slope as i128) * 65536 && (slope as i128) * 65536
                    <= 0x1000_0000_0000_0000 * 65536) by (nonlinear_arith)
                    requires
                        0 < slope as int <= 0x1000_0000_0000_0000,
                ;
            }
            let num = (slope as i128) * 65536;
            proof {
                vstd::arithmetic::div_mod::lemma_fundamental_div_mod(num as int, w as int);
                vstd::arithmetic::div_mod::lemma_mod_bound(num as int, w as int);
                assert(0 <= num as int / (w as int)) by (nonlinear_arith)
                    requires
                        num as int >= 0,
                        w as int >= 1,
                        num as int == (w as int) * (num as int / (w as int)) + (num as int % (
                        w as int)),
                        0 <= (num as int % (w as int)),
                ;
            }
            let q = num / (w as i128);
            let qc = if q > 0x4000_0000_0000 {
                0x4000_0000_0000i128
            } else {
                q
            };
            qc as i64
        };
        let ev: u64 = if e2 <= 0 {
            0
        } else {
            isqrt_u64((e2 as u64) * 65536)
        };
        proof {
            if e2 > 0 {
                assert((ev as int) * (ev as int) <= (e2 as int) * 65536);
                assert(ev <= 0x1_0000_0000) by (nonlinear_arith)
                    requires
                        (ev as int) * (ev as int) <= (e2 as int) * 65536,
                        e2 as int <= 0x4000_0000_0000,
                        ev as int >= 0,
                ;
            }
        }
        eta.push(ev as i64);
        k4 = k4 + 1;
    }
    // Trapezoid averaging between adjacent points.
    let mut etat: Vec<i64> = Vec::new();
    let mut z: i64 = 0;
    let mut k5: usize = 0;
    while k5 < nt - 1
        invariant
            eta@.len() == nt >= 2,
            forall|u: int| 0 <= u < nt ==> 0 <= #[trigger] eta@[u] <= 0x1_0000_0000,
            k5 <= nt - 1,
            etat@.len() == k5,
            forall|u: int| 0 <= u < k5 ==> 0 <= #[trigger] etat@[u] <= 0x1_0000_0000,
            0 <= z <= (k5 as int) * 0x1_0000_0000,
            nt <= T_MAX,
        decreases nt - 1 - k5,
    {
        let t = (eta[k5] + eta[k5 + 1]) / 2;
        proof {
            assert((k5 as int) * 0x1_0000_0000 + 0x1_0000_0000 == (k5 as int + 1)
                * 0x1_0000_0000) by (nonlinear_arith);
            assert((k5 as int + 1) * 0x1_0000_0000 <= 0x1_0000 * 0x1_0000_0000)
                by (nonlinear_arith)
                requires
                    k5 as int + 1 <= 0x1_0000,
            ;
        }
        etat.push(t);
        z = z + t;
        k5 = k5 + 1;
    }
    if z == 0 {
        return Option::None;
    }
    // Normalized CDF over the ladder.
    let mut cdf: Vec<i64> = Vec::new();
    cdf.push(0);
    let mut acc: i64 = 0;
    let mut k6: usize = 0;
    while k6 < nt - 1
        invariant
            etat@.len() == nt - 1,
            nt >= 2,
            forall|u: int| 0 <= u < nt - 1 ==> 0 <= #[trigger] etat@[u] <= 0x1_0000_0000,
            k6 <= nt - 1,
            cdf@.len() == k6 + 1,
            forall|u: int| 0 <= u < k6 + 1 ==> 0 <= #[trigger] cdf@[u] <= FIX_ONE,
            0 <= acc <= FIX_ONE,
            z >= 1,
        decreases nt - 1 - k6,
    {
        let delta_cdf = if k6 + 1 == nt - 1 {
            FIX_ONE - acc
        } else {
            proof {
                assert(0 <= (etat@[k6 as int] as i128) * 65536 && (etat@[k6 as int] as i128)
                    * 65536 <= 0x1_0000_0000 * 65536) by (nonlinear_arith)
                    requires
                        0 <= etat@[k6 as int] as int <= 0x1_0000_0000,
                ;
            }
            let p = (etat[k6] as i128) * 65536;
            proof {
                vstd::arithmetic::div_mod::lemma_fundamental_div_mod(p as int, z as int);
                vstd::arithmetic::div_mod::lemma_mod_bound(p as int, z as int);
                assert(0 <= p as int / (z as int)) by (nonlinear_arith)
                    requires
                        p as int >= 0,
                        z as int >= 1,
                        p as int == (z as int) * (p as int / (z as int)) + (p as int % (
                        z as int)),
                        0 <= (p as int % (z as int)),
                ;
                assert(p as int / (z as int) <= 0x1_0000_0000 * 65536) by (nonlinear_arith)
                    requires
                        p as int >= 0,
                        z as int >= 1,
                        p as int == (z as int) * (p as int / (z as int)) + (p as int % (
                        z as int)),
                        0 <= (p as int % (z as int)),
                        p as int <= 0x1_0000_0000 * 65536,
                ;
            }
            let q = p / (z as i128);
            let qq = q as i64;
            if qq > FIX_ONE - acc {
                FIX_ONE - acc
            } else {
                qq
            }
        };
        acc = acc + delta_cdf;
        cdf.push(acc);
        k6 = k6 + 1;
    }
    Option::Some(cdf)
}

/// Move the interior rungs by inverting the density's CDF at equally
/// spaced levels and blending in log space with the momentum state;
/// the endpoints stay fixed and the result is non-decreasing. Returns
/// the new ladder and the summed decimal-log movement measure.
#[verifier::rlimit(100)]
fn refine_interior(cur_betas: &Vec<i64>, cdf: &Vec<i64>, momentum: &mut Vec<i64>) -> (r: (
    Vec<i64>,
    i64,
))
    requires
        betas_wf(cur_betas@),
        cur_betas@.len() == cdf@.len(),
        2 <= cur_betas@.len() <= T_MAX,
        forall|u: int| 0 <= u < cdf@.len() ==> 0 <= #[trigger] cdf@[u] <= FIX_ONE,
        old(momentum)@.len() == cur_betas@.len(),
        forall|u: int|
            0 <= u < old(momentum)@.len() ==> 1 <= #[trigger] old(momentum)@[u] <= BETA_MAX,
    ensures
        r.0@.len() == cur_betas@.len(),
        betas_wf(r.0@),
        r.0@[0] == cur_betas@[0],
        r.0@[r.0@.len() - 1] == cur_betas@[cur_betas@.len() - 1],
        final(momentum)@.len() == old(momentum)@.len(),
        forall|u: int|
            0 <= u < final(momentum)@.len() ==> 1 <= #[trigger] final(momentum)@[u]
                <= BETA_MAX,
        r.1 >= 0,
{
    let nt = cur_betas.len();
    let bmin = cur_betas[0];
    let bmax = cur_betas[nt - 1];
    proof {
        lemma_betas_sorted(cur_betas@, 0, nt - 1);
    }
    let mut next: Vec<i64> = Vec::new();
    next.push(bmin);
    let mut err_sum: i64 = 0;
    let mut j2: usize = 1;
    while j2 < nt - 1
        invariant
            cur_betas@.len() == nt >= 2,
            betas_wf(cur_betas@),
            cdf@.len() == nt,
            forall|u: int| 0 <= u < nt ==> 0 <= #[trigger] cdf@[u] <= FIX_ONE,
            momentum@.len() == nt,
            forall|u: int| 0 <= u < nt ==> 1 <= #[trigger] momentum@[u] <= BETA_MAX,
            1 <= j2 <= nt - 1,
            next@.len() == j2,
            next@[0] == cur_betas@[0],
            bmin == cur_betas@[0],
            bmax == cur_betas@[nt - 1],
            bmin <= bmax,
            forall|u: int| 0 <= u < j2 ==> 0 <= #[trigger] next@[u] <= bmax,
            forall|u: int| 0 <= u < j2 - 1 ==> #[trigger] next@[u] <= next@[u + 1],
            0 <= err_sum <= (j2 as int) * 44 * 65536,
            nt <= T_MAX,
        decreases nt - 1 - j2,
    {
        proof {
            assert(0 <= (j2 as int) * 65536 && (j2 as int) * 65536 <= 0x1_0000 * 65536)
                by (nonlinear_arith)
                requires
                    0 <= j2 as int <= 0x1_0000,
            ;
        }
        let level = ((j2 as i64) * FIX_ONE) / (nt as i64 - 1);
        let x = bisect_level(cur_betas, cdf, level);
        let span = bmax - bmin;
        proof {
            assert(0 <= (x as int) * (span as int) && (x as int) * (span as int) <= 0x1_0000
                * 0x1_0000_0000) by (nonlinear_arith)
                requires
                    0 <= x as int <= 0x1_0000,
                    0 <= span as int <= 0x1_0000_0000,
            ;
        }
        let bcalc0 = bmin + (x * span) / FIX_ONE;
        proof {
            vstd::arithmetic::div_mod::lemma_fundamental_div_mod(
                (x as int) * (span as int),
                65536,
            );
            vstd::arithmetic::div_mod::lemma_mod_bound((x as int) * (span as int), 65536);
            assert((x as int) * (span as int) <= 65536 * (span as int)) by (nonlinear_arith)
                requires
                    0 <= x as int <= 65536,
                    span as int >= 0,
            ;
            assert(0 <= ((x as int) * (span as int)) / 65536 && ((x as int) * (span as int))
                / 65536 <= span as int) by (nonlinear_arith)
                requires
                    ((x as int) * (span as int)) == 65536 * (((x as int) * (span as int))
                        / 65536) + (((x as int) * (span as int)) % 65536),
                    0 <= (((x as int) * (span as int)) % 65536) < 65536,
                    0 <= (x as int) * (span as int) <= 65536 * (span as int),
                    span >= 0,
            ;
        }
        let bcalc = if bcalc0 < 1 {
            1
        } else if bcalc0 > BETA_MAX {
            BETA_MAX
        } else {
            bcalc0
        };
        // Momentum: m <- exp(0.85 ln m + 0.15 ln b_calc).
        let mold = momentum[j2];
        let mnew = log_blend(mold, bcalc, 85, 15);
        momentum.set(j2, mnew);
        // Step: b <- exp(0.2 ln m + 0.8 ln b_prev).
        let bprev0 = cur_betas[j2];
        let bprev = if bprev0 < 1 {
            1
        } else {
            bprev0
        };
        let bnew0 = log_blend(mnew, bprev, 20, 80);
        // Error measure: |log10(b_calc) - log10(b_prev)|.
        let lc = ln_q16(bcalc);
        let lp = ln_q16(bprev);
        let dl = if lc >= lp {
            lc - lp
        } else {
            lp - lc
        };
        proof {
            assert(0 <= (dl as int) * 28464 && (dl as int) * 28464 <= 43 * 65536 * 28464)
                by (nonlinear_arith)
                requires
                    0 <= dl as int <= 43 * 65536,
            ;
        }
        let e10 = (dl * LOG10_E_Q16) / FIX_ONE;
        proof {
            vstd::arithmetic::div_mod::lemma_fundamental_div_mod((dl as int) * 28464, 65536);
            vstd::arithmetic::div_mod::lemma_mod_bound((dl as int) * 28464, 65536);
            assert(0 <= (e10 as int) && (e10 as int) <= 44 * 65536) by (nonlinear_arith)
                requires
                    e10 as int == ((dl as int) * 28464) / 65536,
                    (dl as int) * 28464 == 65536 * (((dl as int) * 28464) / 65536) + (((
                    dl as int) * 28464) % 65536),
                    0 <= (((dl as int) * 28464) % 65536) < 65536,
                    0 <= (dl as int) * 28464 <= 43 * 65536 * 28464,
            ;
            assert((j2 as int) * 44 * 65536 + 44 * 65536 == (j2 as int + 1) * 44 * 65536)
                by (nonlinear_arith);
            assert((j2 as int + 1) * 44 * 65536 <= 0x1_0000 * 44 * 65536) by (nonlinear_arith)
                requires
                    j2 as int + 1 <= 0x1_0000,
            ;
        }
        err_sum = err_sum + e10;
        // Monotone clamp into [previous rung, bmax].
        let prev_rung = next[j2 - 1];
        let bnew = if bnew0 < prev_rung {
            prev_rung
        } else if bnew0 > bmax {
            bmax
        } else {
            bnew0
        };
        next.push(bnew);
        j2 = j2 + 1;
    }
    next.push(bmax);
    proof {
        assert(betas_wf(next@)) by {
            assert(forall|u: int| 0 <= u < next@.len() ==> 0 <= #[trigger] next@[u] <= BETA_MAX);
            assert(forall|u: int|
                0 <= u < next@.len() - 1 ==> #[trigger] next@[u] <= next@[u + 1]);
        }
    }
    (next, err_sum)
}

/// Replica chains reusable as the next run's starting point.
pub open spec fn init_ok(
    st: Seq<PTState>,
    inst: BqmIsingInstance,
    betas: Seq<i64>,
    p: PtIcmParams,
) -> bool {
    &&& st.len() == p.num_replica_chains
    &&& st.len() >= 1
    &&& forall|c: int| 0 <= c < st.len() ==> (#[trigger] st[c]).wf(inst)
    &&& forall|c: int| 0 <= c < st.len() ==> (#[trigger] st[c]).caches_ready()
    &&& forall|c: int| 0 <= c < st.len() ==> (#[trigger] st[c]).nt() == betas.len()
    &&& forall|c: int| 0 <= c < st.len() ==> (#[trigger] st[c]).round_trips == 0
    &&& forall|c: int, k: int|
        0 <= c < st.len() && 0 <= k < st[c].nt() ==> #[trigger] st[c].num_acceptances@[k] == 0
    &&& forall|c: int, k: int|
        0 <= c < st.len() && 0 <= k < st[c].nt() ==> #[trigger] st[c].diffusion_hist@[k] == (
        0u64,
        0u64,
    )
}

/// A zero vector of the given length.
fn zero_vec(n: usize) -> (r: Vec<i64>)
    ensures
        r@.len() == n,
        forall|u: int| 0 <= u < n ==> #[trigger] r@[u] == 0i64,
{
    let mut r: Vec<i64> = Vec::new();
    for _i in 0..n
        invariant
            r@.len() == _i,
            forall|u: int| 0 <= u < _i ==> #[trigger] r@[u] == 0i64,
    {
        r.push(0);
    }
    r
}

/// An element-wise copy.
fn copy_vec(v: &Vec<i64>) -> (r: Vec<i64>)
    ensures
        r@ == v@,
{
    let mut r: Vec<i64> = Vec::new();
    let m = v.len();
    for k in 0..m
        invariant
            m == v@.len(),
            r@.len() == k,
            forall|u: int| 0 <= u < k ==> #[trigger] r@[u] == v@[u],
    {
        r.push(v[k]);
    }
    proof {
        assert(r@ =~= v@);
    }
    r
}

/// An independent copy of a parameter record, for iteration-local
/// updates.
fn clone_params_pub(p: &PtIcmParams) -> (r: PtIcmParams)
    ensures
        r.num_sweeps == p.num_sweeps,
        r.warmup_fraction == p.warmup_fraction,
        r.lo_beta == p.lo_beta,
        r.icm == p.icm,
        r.num_replica_chains == p.num_replica_chains,
        r.threads == p.threads,
        r.sample == p.sample,
        r.sample_states == p.sample_states,
        r.sample_limiting == p.sample_limiting,
        r.beta.wf() == p.beta.wf(),
        r.beta.spec_len() == p.beta.spec_len(),
        p.beta matches BetaOptions::Geometric(g) ==> r.beta == BetaOptions::Geometric(g),
        p.beta matches BetaOptions::Arr(v) ==> (r.beta matches BetaOptions::Arr(v2) && v2@
            == v@),
{
    let beta = match &p.beta {
        BetaOptions::Geometric(b) => BetaOptions::Geometric(*b),
        BetaOptions::Arr(v) => BetaOptions::Arr(copy_vec(v)),
    };
    PtIcmParams {
        num_sweeps: p.num_sweeps,
        warmup_fraction: p.warmup_fraction,
        beta,
        lo_beta: p.lo_beta,
        icm: p.icm,
        num_replica_chains: p.num_replica_chains,
        threads: p.threads,
        sample: p.sample,
        sample_states: p.sample_states,
        sample_limiting: p.sample_limiting,
    }
}

} // verus!
