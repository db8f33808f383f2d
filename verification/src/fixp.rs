//! Q47.16 fixed-point arithmetic: every quantity is an `i64` (or `u64`)
//! holding `value * 65536`. Division rounds toward minus infinity,
//! matching the mathematical `/` of the specifications.
use vstd::prelude::*;

verus! {

/// One unit in Q47.16 fixed point.
pub const FIX_ONE: i64 = 65536;

/// Largest magnitude admitted into the fixed-point routines; leaves
/// ample headroom in `i64` for sums and doubling.
pub const FIX_ABS_MAX: i64 = 0x4000_0000_0000_0000;

/// Floor division of an `i64` by a positive divisor.
pub fn floor_div_i64(a: i64, d: i64) -> (r: i64)
    requires
        0 < d < FIX_ABS_MAX,
        -FIX_ABS_MAX < a < FIX_ABS_MAX,
    ensures
        r == a as int / d as int,
{
    if a >= 0 {
        a / d
    } else {
        let na = -a;
        let q = (na + d - 1) / d;
        proof {
            lemma_neg_floor_div(na as int, d as int);
        }
        -q
    }
}

/// For positive `x` and `d`, the floor of `-x / d` is the negated
/// round-up of `x / d`.
proof fn lemma_neg_floor_div(x: int, d: int)
    by (nonlinear_arith)
    requires
        x > 0,
        d > 0,
    ensures
        -((x + d - 1) / d) == (-x) / d,
{
}

/// One probability unit: the scale of the acceptance probabilities
/// handed to the Bernoulli draw.
pub const Q31_ONE: u32 = 0x8000_0000;

/// ln 2 in Q47.16, rounded down.
pub const LN2_Q16: i64 = 45426;

/// Fixed-point product with floor rounding: `a * b / 65536`.
pub fn mul_q16(a: i64, b: i64) -> (r: i64)
    requires
        -0x1_0000_0000 <= a <= 0x1_0000_0000,
        -0x2000_0000_0000 <= b <= 0x2000_0000_0000,
    ensures
        r == (a as int) * (b as int) / (FIX_ONE as int),
        -0x2000_0000_0000_0000 <= r <= 0x2000_0000_0000_0000,
{
    proof {
        assert(-0x2000_0000_0000_0000_0000 <= (a as int) * (b as int)
            <= 0x2000_0000_0000_0000_0000) by (nonlinear_arith)
            requires
                -0x1_0000_0000 <= a as int <= 0x1_0000_0000,
                -0x2000_0000_0000 <= b as int <= 0x2000_0000_0000,
        ;
    }
    let p = (a as i128) * (b as i128);
    let q = if p >= 0 {
        p / 65536
    } else {
        let nq = ((-p) + 65535) / 65536;
        proof {
            lemma_neg_floor_div(-(p as int), 65536);
        }
        -nq
    };
    proof {
        vstd::arithmetic::div_mod::lemma_div_is_ordered(
            (a as int) * (b as int),
            0x2000_0000_0000_0000_0000,
            65536,
        );
        vstd::arithmetic::div_mod::lemma_div_is_ordered(
            -0x2000_0000_0000_0000_0000,
            (a as int) * (b as int),
            65536,
        );
        assert(0x2000_0000_0000_0000_0000int / 65536 == 0x2000_0000_0000_0000int);
        assert((-0x2000_0000_0000_0000_0000int) / 65536 == -0x2000_0000_0000_0000int);
    }
    q as i64
}

/// e^(-r) in Q31 for `0 <= r < ln 2`, by a floor-truncated Horner
/// evaluation of the alternating series. Exact at `r == 0`.
fn exp_unit_neg_q31(r: i64) -> (x: u64)
    requires
        0 <= r < LN2_Q16,
    ensures
        0 < x <= Q31_ONE as u64,
        x >= Q31_ONE as u64 - (r as u64) * 0x8000,
        r == 0 ==> x == Q31_ONE as u64,
{
    let r31: u64 = (r as u64) * 0x8000;
    let mut x: u64 = 0x8000_0000;
    let mut j: u64 = 14;
    while j >= 1
        invariant
            0 < x <= 0x8000_0000,
            x >= 0x8000_0000 - r31,
            r31 < 0x8000_0000,
            r31 == r * 0x8000,
            1 <= j <= 14,
            r == 0 ==> x == 0x8000_0000,
        decreases j,
    {
        proof {
            assert(r31 * x <= 0x8000_0000 * 0x8000_0000) by (nonlinear_arith)
                requires
                    r31 < 0x8000_0000,
                    x <= 0x8000_0000,
                    0 < x,
                    0 <= r31,
            ;
        }
        let t = (r31 * x) / (j * 0x8000_0000);
        proof {
            assert(r31 * x <= r31 * 0x8000_0000) by (nonlinear_arith)
                requires
                    0 < x <= 0x8000_0000,
                    0 <= r31,
            ;
            vstd::arithmetic::div_mod::lemma_div_is_ordered(
                (r31 * x) as int,
                (r31 * 0x8000_0000) as int,
                (j * 0x8000_0000) as int,
            );
            assert(r31 * 0x8000_0000 / (j * 0x8000_0000) <= r31) by (nonlinear_arith)
                requires
                    1 <= j,
            ;
        }
        x = 0x8000_0000 - t;
        if j == 1 {
            return x;
        }
        j = j - 1;
    }
    x
}

/// exp(-z) in Q31 for `z >= 0` in Q47.16: the Metropolis acceptance
/// probability for a positive energy change `z = beta * dE`. Saturates
/// to zero once the true value drops below the probability resolution.
pub fn exp_neg_q31(z: i64) -> (p: u32)
    requires
        z >= 0,
    ensures
        p <= Q31_ONE,
        z == 0 ==> p == Q31_ONE,
{
    if z >= 32 * FIX_ONE {
        return 0;
    }
    let k = z / LN2_Q16;
    let r = z % LN2_Q16;
    if k >= 32 {
        return 0;
    }
    let x = exp_unit_neg_q31(r);
    let ks = k as u64;
    let p = x >> ks;
    proof {
        assert(p <= x && (ks == 0 ==> p == x)) by (bit_vector)
            requires
                p == x >> ks,
                ks < 32,
                x <= 0x8000_0000,
        ;
        if z == 0 {
            assert(k == 0 && r == 0);
        }
    }
    p as u32
}

/// e^x in Q47.16 for `|x| <= 16`, floor-rounded; never returns zero,
/// so a logarithm can always follow. Exact at `x == 0`.
pub fn exp_q16(x: i64) -> (r: i64)
    requires
        -16 * FIX_ONE <= x <= 16 * FIX_ONE,
    ensures
        1 <= r <= 0x400_0000_0000,
        x == 0 ==> r == FIX_ONE,
{
    let k = floor_div_i64(x, LN2_Q16);
    proof {
        vstd::arithmetic::div_mod::lemma_fundamental_div_mod(x as int, LN2_Q16 as int);
        vstd::arithmetic::div_mod::lemma_mod_bound(x as int, LN2_Q16 as int);
        assert(-24 <= (x as int / LN2_Q16 as int) <= 24) by (nonlinear_arith)
            requires
                -16 * 65536 <= x as int <= 16 * 65536,
                x as int == (LN2_Q16 as int) * (x as int / (LN2_Q16 as int)) + (x as int % (
                LN2_Q16 as int)),
                0 <= (x as int % (LN2_Q16 as int)) < LN2_Q16 as int,
        ;
    }
    let rr = x - k * LN2_Q16;
    proof {
        assert(rr == x as int % LN2_Q16 as int);
    }
    let xneg = exp_unit_neg_q31(rr);
    // e^rr = 2^62 / (e^(-rr) * 2^31), in Q31.
    let em: u64 = 0x4000_0000_0000_0000u64 / xneg;
    proof {
        assert(xneg >= 0x8000_0000 - 45426 * 0x8000);
        vstd::arithmetic::div_mod::lemma_fundamental_div_mod(
            0x4000_0000_0000_0000,
            xneg as int,
        );
        vstd::arithmetic::div_mod::lemma_mod_bound(0x4000_0000_0000_0000, xneg as int);
        assert(0x8000_0000 <= em <= 0x2_0000_0000) by (nonlinear_arith)
            requires
                0x4000_0000_0000_0000int == (xneg as int) * (em as int) + (
                0x4000_0000_0000_0000int % (xneg as int)),
                0 <= (0x4000_0000_0000_0000int % (xneg as int)) < xneg as int,
                0x2000_0000 <= xneg <= 0x8000_0000,
        ;
        if x == 0 {
            assert(0x4000_0000_0000_0000u64 / 0x8000_0000u64 == 0x8000_0000u64);
        }
    }
    let r: u64 = if k >= 15 {
        let sh = (k - 15) as u64;
        let rv = em << sh;
        proof {
            assert(em <= rv <= em * 0x200 && (sh == 0 ==> rv == em)) by (bit_vector)
                requires
                    rv == em << sh,
                    sh <= 9,
                    em <= 0x2_0000_0000,
            ;
            assert(rv <= 0x2_0000_0000u64 * 0x200) by (nonlinear_arith)
                requires
                    rv <= em * 0x200,
                    em <= 0x2_0000_0000,
            ;
        }
        rv
    } else {
        let sh = (15 - k) as u64;
        let rv = em >> sh;
        proof {
            assert(rv <= em && (sh == 0 ==> rv == em)) by (bit_vector)
                requires
                    rv == em >> sh,
                    sh <= 40,
            ;
            if x == 0 {
                assert(0x8000_0000u64 >> 15u64 == 0x1_0000u64) by (bit_vector);
            }
        }
        rv
    };
    let r64 = if r == 0 {
        1u64
    } else {
        r
    };
    r64 as i64
}

/// Integer square root: the floor of the square root of `x`.
pub fn isqrt_u64(x: u64) -> (r: u64)
    ensures
        (r as int) * (r as int) <= x,
        (r as int + 1) * (r as int + 1) > x,
        r <= 0x1_0000_0000,
{
    let mut lo: u64 = 0;
    let mut hi: u64 = 0x1_0000_0000;
    proof {
        assert(0x1_0000_0000 * 0x1_0000_0000 > x as int) by (nonlinear_arith)
            requires
                x <= 0xffff_ffff_ffff_ffff,
        ;
    }
    while hi - lo > 1
        invariant
            lo < hi <= 0x1_0000_0000,
            (lo as int) * (lo as int) <= x,
            (hi as int) * (hi as int) > x,
        decreases hi - lo,
    {
        let mid = lo + (hi - lo) / 2;
        proof {
            assert((mid as int) * (mid as int) <= 0x1_0000_0000 * 0x1_0000_0000)
                by (nonlinear_arith)
                requires
                    0 <= mid <= 0x1_0000_0000,
            ;
        }
        let sq = (mid as u128) * (mid as u128);
        if sq <= x as u128 {
            lo = mid;
            proof {
                assert((lo as int) * (lo as int) <= x);
            }
        } else {
            hi = mid;
            proof {
                assert((hi as int) * (hi as int) > x);
            }
        }
    }
    lo
}

/// log2 of `m / 2^30` in Q30 for `m` in `[2^30, 2^31)`, by binary
/// digit extraction.
fn log2_frac_q30(m0: u64) -> (y: u64)
    requires
        0x4000_0000 <= m0 < 0x8000_0000,
    ensures
        y < 0x4000_0000,
{
    let mut m: u64 = m0;
    let mut y: u64 = 0;
    let mut i: u64 = 0;
    while i < 30
        invariant
            0x4000_0000 <= m < 0x8000_0000,
            i <= 30,
            y < exp2_spec(i as nat),
        decreases 30 - i,
    {
        proof {
            assert(m * m < 0x4000_0000_0000_0000) by (nonlinear_arith)
                requires
                    m < 0x8000_0000,
            ;
        }
        let msq = (m * m) >> 30;
        proof {
            assert((((m * m) as u64) >> 30u64) >= 0x4000_0000 && (((m * m) as u64) >> 30u64)
                < 0x1_0000_0000) by (bit_vector)
                requires
                    0x4000_0000 <= m < 0x8000_0000,
            ;
            assert(msq == ((m * m) as u64) >> 30u64);
        }
        proof {
            lemma_exp2_mono(i as nat, 29nat);
            assert(exp2_spec(29nat) == 0x2000_0000) by {
                reveal_with_fuel(exp2_spec, 32);
            }
        }
        if msq >= 0x8000_0000 {
            m = msq >> 1;
            proof {
                assert(0x4000_0000 <= (msq >> 1) < 0x8000_0000) by (bit_vector)
                    requires
                        0x8000_0000 <= msq < 0x1_0000_0000,
                ;
            }
            y = 2 * y + 1;
        } else {
            m = msq;
            y = 2 * y;
        }
        i = i + 1;
        proof {
            assert(exp2_spec(i as nat) == 2 * exp2_spec((i - 1) as nat));
            lemma_exp2_mono(i as nat, 30nat);
            assert(exp2_spec(30nat) == 0x4000_0000) by {
                reveal_with_fuel(exp2_spec, 32);
            }
        }
    }
    proof {
        assert(exp2_spec(30nat) == 0x4000_0000) by {
                reveal_with_fuel(exp2_spec, 32);
            }
    }
    y
}

/// Two to the `k`-th power.
pub open spec fn exp2_spec(k: nat) -> int
    decreases k,
{
    if k == 0 {
        1
    } else {
        2 * exp2_spec((k - 1) as nat)
    }
}

proof fn lemma_exp2_mono(a: nat, b: nat)
    requires
        a <= b,
    ensures
        exp2_spec(a) <= exp2_spec(b),
        exp2_spec(a) >= 1,
    decreases b,
{
    if a < b {
        lemma_exp2_mono(a, (b - 1) as nat);
    } else if b > 0 {
        lemma_exp2_mono((a - 1) as nat, (b - 1) as nat);
    }
}

/// Natural logarithm in Q47.16 of a positive Q47.16 value, floor
/// rounded at the algorithm's resolution. Exact at `x == 1`.
pub fn ln_q16(x: i64) -> (r: i64)
    requires
        1 <= x <= 0x4000_0000_0000,
    ensures
        -12 * FIX_ONE <= r <= 31 * FIX_ONE,
        x == FIX_ONE ==> r == 0,
{
    if x == FIX_ONE {
        return 0;
    }
    // Normalize: m in [2^30, 2^31), with x read as m * 2^(e - 14) in
    // Q47.16, so ln x = (e + log2(m / 2^30) - 16 + 30 - 14) ln 2.
    let mut m: u64 = x as u64;
    let mut e: i64 = 0;
    while m >= 0x8000_0000
        invariant
            1 <= m,
            0 <= e <= 16,
            (m as int) * exp2_spec(e as nat) <= x as int,
            x <= 0x4000_0000_0000,
            e > 0 ==> m >= 0x4000_0000,
        decreases m,
    {
        proof {
            lemma_exp2_mono(0nat, e as nat);
            if e >= 16 {
                lemma_exp2_mono(16nat, e as nat);
                assert(exp2_spec(16nat) == 65536) by {
                reveal_with_fuel(exp2_spec, 18);
            }
                assert((m as int) * exp2_spec(e as nat) >= 0x8000_0000 * 65536)
                    by (nonlinear_arith)
                    requires
                        m as int >= 0x8000_0000,
                        exp2_spec(e as nat) >= 65536,
                ;
            }
            assert((m as int / 2) * exp2_spec((e + 1) as nat) <= (m as int) * exp2_spec(
                e as nat,
            )) by (nonlinear_arith)
                requires
                    exp2_spec((e + 1) as nat) == 2 * exp2_spec(e as nat),
                    exp2_spec(e as nat) >= 1,
                    m as int / 2 >= 0,
                    2 * (m as int / 2) <= m as int,
            ;
        }
        m = m / 2;
        e = e + 1;
    }
    while m < 0x4000_0000
        invariant
            1 <= m < 0x8000_0000,
            -30 <= e <= 16,
            e > 0 ==> m >= 0x4000_0000,
            e <= 0 ==> m as int >= exp2_spec((-e) as nat),
        decreases 0x8000_0000u64 - m,
    {
        proof {
            assert(e <= 0);
            if e <= -30 {
                lemma_exp2_mono(30nat, (-e) as nat);
                assert(exp2_spec(30nat) == 0x4000_0000) by {
                reveal_with_fuel(exp2_spec, 32);
            }
                assert(false);
            }
            assert(exp2_spec((-(e - 1)) as nat) == 2 * exp2_spec((-e) as nat));
        }
        m = m * 2;
        e = e - 1;
    }
    let y = log2_frac_q30(m);
    // t = (e + 14) * 2^30 + y, so ln x = t * ln2 / 2^30 in Q47.16.
    let t: i64 = (e + 14) * 0x4000_0000 + (y as i64);
    let num: i64 = t * LN2_Q16;
    let r = floor_div_i64(num, 0x4000_0000);
    proof {
        assert(-16 * 0x4000_0000 <= t as int <= 31 * 0x4000_0000);
        assert(-16 * 0x4000_0000 * 45426 <= num as int <= 31 * 0x4000_0000 * 45426)
            by (nonlinear_arith)
            requires
                -16 * 0x4000_0000 <= t as int <= 31 * 0x4000_0000,
                num as int == t as int * 45426,
        ;
        vstd::arithmetic::div_mod::lemma_div_is_ordered(
            num as int,
            31int * 0x4000_0000 * 45426,
            0x4000_0000int,
        );
        vstd::arithmetic::div_mod::lemma_div_is_ordered(
            -16int * 0x4000_0000 * 45426,
            num as int,
            0x4000_0000int,
        );
        assert(31int * 0x4000_0000 * 45426 / 0x4000_0000 == 31int * 45426);
        assert((-16int * 0x4000_0000 * 45426) / 0x4000_0000 == -16int * 45426);
    }
    r
}

} // verus!
