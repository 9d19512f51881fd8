//! Fixed-point arithmetic for the simulation.
//!
//! Every quantity of wealth, every payoff and every probability is an
//! `i64` holding millionths of a unit (`FP_ONE` is one unit).  Additions
//! saturate at the `i64` bounds; products and quotients truncate toward
//! zero, as the corresponding machine operations do.  Contest scores,
//! the values `x^m` fed to the Tullock contest-success function, live in
//! the interval `[1, POW_MAX]` so that a contest always has a positive
//! total score.

use vstd::prelude::*;
use vstd::arithmetic::div_mod::{lemma_div_is_ordered, lemma_div_multiples_vanish, lemma_div_pos_is_pos, lemma_div_nonincreasing};

verus! {

/// One unit of wealth (or probability one), in millionths.
pub const FP_ONE: i64 = 1_000_000;

/// Probability one half.
pub const FP_HALF: i64 = 500_000;

/// Largest value a contest score may take.
pub const POW_MAX: i64 = 1_000_000_000_000_000_000;

/// Euler's number, in millionths.
pub const EULER_FP: i64 = 2_718_282;

/// The Fermi exponent is clamped to this magnitude (28 units); beyond it
/// the imitation probability already truncates to 0 or 1 in millionths.
pub const FERMI_CLAMP: i64 = 28_000_000;

/// 2^20, the denominator of the binary expansion used for fractional
/// exponents.
pub const FRAC_ONE: u64 = 1_048_576;

pub open spec fn clamp_i64(x: int) -> int {
    if x > i64::MAX as int {
        i64::MAX as int
    } else if x < i64::MIN as int {
        i64::MIN as int
    } else {
        x
    }
}

pub open spec fn clamp_i128(x: int) -> int {
    if x > i128::MAX as int {
        i128::MAX as int
    } else if x < i128::MIN as int {
        i128::MIN as int
    } else {
        x
    }
}

pub open spec fn abs_int(x: int) -> int {
    if x < 0 {
        -x
    } else {
        x
    }
}

/// Division truncating toward zero, the behaviour of the machine division
/// this crate computes with.
pub open spec fn div_trunc(a: int, b: int) -> int
    recommends
        b != 0,
{
    let q = abs_int(a) / abs_int(b);
    if (a < 0) == (b < 0) {
        q
    } else {
        -q
    }
}

/// Saturating addition on wealth values.
pub fn sat_add64(a: i64, b: i64) -> (r: i64)
    ensures
        r == clamp_i64(a + b),
{
    let s: i128 = a as i128 + b as i128;
    if s > i64::MAX as i128 {
        i64::MAX
    } else if s < i64::MIN as i128 {
        i64::MIN
    } else {
        s as i64
    }
}

/// Saturating subtraction on wealth values.
pub fn sat_sub64(a: i64, b: i64) -> (r: i64)
    ensures
        r == clamp_i64(a - b),
{
    let s: i128 = a as i128 - b as i128;
    if s > i64::MAX as i128 {
        i64::MAX
    } else if s < i64::MIN as i128 {
        i64::MIN
    } else {
        s as i64
    }
}

/// Saturating addition on wide accumulators.
pub fn sat_add128(a: i128, b: i128) -> (r: i128)
    ensures
        r == clamp_i128(a + b),
{
    if b >= 0 {
        if a > i128::MAX - b {
            i128::MAX
        } else {
            a + b
        }
    } else {
        if a < i128::MIN - b {
            i128::MIN
        } else {
            a + b
        }
    }
}

/// Magnitude of a signed value, as an unsigned one.
fn abs_mag64(a: i64) -> (r: u64)
    ensures
        r == abs_int(a as int),
{
    if a >= 0 {
        a as u64
    } else {
        let w: i128 = -(a as i128);
        w as u64
    }
}

proof fn lemma_abs_mul(a: int, b: int)
    ensures
        abs_int(a * b) == abs_int(a) * abs_int(b),
        (a * b < 0) <==> (a != 0 && b != 0 && ((a < 0) != (b < 0))),
        (a * b > 0) <==> (a != 0 && b != 0 && ((a < 0) == (b < 0))),
{
    assert(abs_int(a * b) == abs_int(a) * abs_int(b)
        && ((a * b < 0) <==> (a != 0 && b != 0 && ((a < 0) != (b < 0))))
        && ((a * b > 0) <==> (a != 0 && b != 0 && ((a < 0) == (b < 0))))) by (nonlinear_arith);
}

/// `clamp_i64(div_trunc(a * b, c))`: the scaled products the model uses
/// (an investment share, a decayed wealth).
pub fn mul_div_clamped(a: i64, b: i64, c: u128) -> (r: i64)
    requires
        c >= 1,
    ensures
        r == clamp_i64(div_trunc(a as int * b as int, c as int)),
{
    let neg = (a < 0) != (b < 0);
    let ma: u128 = abs_mag64(a) as u128;
    let mb: u128 = abs_mag64(b) as u128;
    proof {
        lemma_abs_mul(a as int, b as int);
        assert(ma * mb == abs_int(a as int * b as int)) by (nonlinear_arith)
            requires
                ma == abs_int(a as int),
                mb == abs_int(b as int),
                abs_int(a as int * b as int) == abs_int(a as int) * abs_int(b as int),
        ;
        assert(ma * mb <= 9_223_372_036_854_775_808u128 * 9_223_372_036_854_775_808u128)
            by (nonlinear_arith)
            requires
                ma <= 9_223_372_036_854_775_808u128,
                mb <= 9_223_372_036_854_775_808u128,
        ;
    }
    let mag: u128 = (ma * mb) / c;
    proof {
        assert(mag == abs_int(a as int * b as int) / (c as int));
        assert(abs_int(div_trunc(a as int * b as int, c as int)) == mag) by {
            lemma_div_pos_is_pos(abs_int(a as int * b as int), c as int);
        }
    }
    if neg {
        // -mag, clamped below at i64::MIN
        if mag >= 9_223_372_036_854_775_808u128 {
            proof {
                assert(div_trunc(a as int * b as int, c as int) <= i64::MIN as int);
            }
            i64::MIN
        } else {
            let m: i128 = -(mag as i128);
            m as i64
        }
    } else {
        if mag > i64::MAX as u128 {
            i64::MAX
        } else {
            mag as i64
        }
    }
}

/// Wealth after one step of consumption: `r` scaled by `1 - rate`, the
/// retention factor saturating at the `i64` bounds.
pub open spec fn spec_decay(r: int, rate: int) -> int {
    clamp_i64(div_trunc(r * clamp_i64(FP_ONE - rate), FP_ONE as int))
}

pub fn decay(r: i64, rate: i64) -> (v: i64)
    ensures
        v == spec_decay(r as int, rate as int),
{
    let f = sat_sub64(FP_ONE, rate);
    mul_div_clamped(r, f, FP_ONE as u128)
}

pub open spec fn is_isqrt(n: int, r: int) -> bool {
    0 <= r && r * r <= n && n < (r + 1) * (r + 1)
}

/// The integer square root, as the unique value `is_isqrt` accepts.
pub open spec fn spec_isqrt(n: int) -> int
    recommends
        n >= 0,
{
    choose|r: int| is_isqrt(n, r)
}

proof fn lemma_isqrt_unique(n: int, r: int)
    requires
        is_isqrt(n, r),
    ensures
        spec_isqrt(n) == r,
{
    assert(exists|q: int| is_isqrt(n, q)) by {
        assert(is_isqrt(n, r));
    }
    let q = spec_isqrt(n);
    assert(is_isqrt(n, q));
    assert(q == r) by (nonlinear_arith)
        requires
            is_isqrt(n, q),
            is_isqrt(n, r),
    ;
}

/// Binary search for the integer square root.
fn isqrt(n: u128) -> (r: u128)
    requires
        n < 1_267_650_600_228_229_401_496_703_205_376u128,
    ensures
        is_isqrt(n as int, r as int),
        r == spec_isqrt(n as int),
{
    let mut lo: u128 = 0;
    let mut hi: u128 = 2_251_799_813_685_248u128;
    while lo + 1 < hi
        invariant
            lo < hi,
            hi <= 2_251_799_813_685_248u128,
            lo * lo <= n,
            n < hi * hi,
        decreases hi - lo,
    {
        let mid = lo + (hi - lo) / 2;
        proof {
            assert(mid * mid <= 2_251_799_813_685_248u128 * 2_251_799_813_685_248u128)
                by (nonlinear_arith)
                requires
                    mid <= 2_251_799_813_685_248u128,
            ;
        }
        if mid * mid <= n {
            lo = mid;
        } else {
            hi = mid;
        }
    }
    proof {
        assert(lo + 1 == hi);
        lemma_isqrt_unique(n as int, lo as int);
    }
    lo
}

/// Clamp into the contest-score interval `[1, POW_MAX]`.
pub open spec fn cclamp(x: int) -> int {
    if x < 1 {
        1
    } else if x > POW_MAX as int {
        POW_MAX as int
    } else {
        x
    }
}

/// Product of two contest scores, truncated and clamped.
pub open spec fn spec_cmul(a: int, b: int) -> int {
    cclamp((a * b) / (FP_ONE as int))
}

fn cmul(a: i64, b: i64) -> (r: i64)
    requires
        1 <= a <= POW_MAX,
        1 <= b <= POW_MAX,
    ensures
        r == spec_cmul(a as int, b as int),
        1 <= r <= POW_MAX,
{
    proof {
        assert((a as u128) * (b as u128) == a as int * b as int) by (nonlinear_arith)
            requires
                1 <= a <= POW_MAX,
                1 <= b <= POW_MAX,
        ;
        assert((a as int) * (b as int) <= (POW_MAX as int) * (POW_MAX as int)) by (nonlinear_arith)
            requires
                1 <= a <= POW_MAX,
                1 <= b <= POW_MAX,
        ;

    }
    let p: u128 = (a as u128) * (b as u128) / (FP_ONE as u128);
    if p < 1 {
        1
    } else if p > POW_MAX as u128 {
        POW_MAX
    } else {
        p as i64
    }
}

/// Square root of a contest score, clamped back into the interval.
pub open spec fn spec_csqrt(a: int) -> int {
    cclamp(spec_isqrt(a * (FP_ONE as int)))
}

fn csqrt(a: i64) -> (r: i64)
    requires
        1 <= a <= POW_MAX,
    ensures
        r == spec_csqrt(a as int),
        1 <= r <= POW_MAX,
{
    proof {
        assert((a as u128) * (FP_ONE as u128) == a as int * FP_ONE as int) by (nonlinear_arith)
            requires
                1 <= a <= POW_MAX,
        ;
        assert((a as int) * (FP_ONE as int) <= (POW_MAX as int) * (FP_ONE as int)) by (nonlinear_arith)
            requires
                1 <= a <= POW_MAX,
        ;

    }
    let s = isqrt((a as u128) * (FP_ONE as u128));
    if s < 1 {
        1
    } else if s > POW_MAX as u128 {
        POW_MAX
    } else {
        s as i64
    }
}

/// A contest score raised to a whole power, by squaring.
pub open spec fn spec_pow_int(x: int, n: nat) -> int
    decreases n,
{
    if n == 0 {
        FP_ONE as int
    } else if n % 2 == 0 {
        let h = spec_pow_int(x, n / 2);
        spec_cmul(h, h)
    } else {
        spec_cmul(x, spec_pow_int(x, (n - 1) as nat))
    }
}

pub proof fn lemma_pow_int_range(x: int, n: nat)
    requires
        1 <= x <= POW_MAX as int,
    ensures
        1 <= spec_pow_int(x, n) <= POW_MAX as int,
    decreases n,
{
    if n == 0 {
    } else if n % 2 == 0 {
        lemma_pow_int_range(x, n / 2);
    } else {
        lemma_pow_int_range(x, (n - 1) as nat);
    }
}

fn pow_int(x: i64, n: u64) -> (r: i64)
    requires
        1 <= x <= POW_MAX,
    ensures
        r == spec_pow_int(x as int, n as nat),
        1 <= r <= POW_MAX,
    decreases n,
{
    if n == 0 {
        FP_ONE
    } else if n % 2 == 0 {
        let h = pow_int(x, n / 2);
        cmul(h, h)
    } else {
        let t = pow_int(x, n - 1);
        cmul(x, t)
    }
}

/// A contest score raised to the fractional power `frac2 / 2^20`, by the
/// binary expansion of the exponent: bit `k - 1` of `frac2` contributes
/// the factor `x^(2^-(21 - k))` ... the `k`-th repeated square root.
pub open spec fn spec_pow_frac(x: int, frac2: u64, k: nat) -> int
    decreases k,
{
    if k == 0 {
        FP_ONE as int
    } else {
        let c = spec_csqrt(x);
        let rest = spec_pow_frac(c, frac2, (k - 1) as nat);
        if (frac2 >> ((k - 1) as u64)) & 1 == 1 {
            spec_cmul(c, rest)
        } else {
            rest
        }
    }
}

pub proof fn lemma_pow_frac_range(x: int, frac2: u64, k: nat)
    requires
        1 <= x <= POW_MAX as int,
    ensures
        1 <= spec_pow_frac(x, frac2, k) <= POW_MAX as int,
    decreases k,
{
    if k == 0 {
    } else {
        lemma_pow_frac_range(spec_csqrt(x), frac2, (k - 1) as nat);
    }
}

fn pow_frac(x: i64, frac2: u64, k: u64) -> (r: i64)
    requires
        1 <= x <= POW_MAX,
        k <= 20,
    ensures
        r == spec_pow_frac(x as int, frac2, k as nat),
        1 <= r <= POW_MAX,
    decreases k,
{
    if k == 0 {
        FP_ONE
    } else {
        let c = csqrt(x);
        let rest = pow_frac(c, frac2, k - 1);
        if (frac2 >> (k - 1)) & 1 == 1 {
            cmul(c, rest)
        } else {
            rest
        }
    }
}

/// `x^m` over contest scores: the whole part of `m` by squaring, the
/// fractional part by the 20-bit binary expansion.
pub open spec fn spec_pow_fp(x: int, m: int) -> int
    recommends
        1 <= x <= POW_MAX as int,
        0 <= m,
{
    let n = m / (FP_ONE as int);
    let fr = m % (FP_ONE as int);
    let frac2 = (fr * (FRAC_ONE as int)) / (FP_ONE as int);
    spec_cmul(spec_pow_int(x, n as nat), spec_pow_frac(x, frac2 as u64, 20))
}

pub proof fn lemma_pow_fp_range(x: int, m: int)
    requires
        1 <= x <= POW_MAX as int,
        0 <= m,
    ensures
        1 <= spec_pow_fp(x, m) <= POW_MAX as int,
{
    let n = m / (FP_ONE as int);
    let fr = m % (FP_ONE as int);
    let frac2 = (fr * (FRAC_ONE as int)) / (FP_ONE as int);
    lemma_pow_int_range(x, n as nat);
    lemma_pow_frac_range(x, frac2 as u64, 20);
}

pub fn pow_fp(x: i64, m: i64) -> (r: i64)
    requires
        1 <= x <= POW_MAX,
        0 <= m,
    ensures
        r == spec_pow_fp(x as int, m as int),
        1 <= r <= POW_MAX,
{
    let mu: u64 = m as u64;
    let n: u64 = mu / (FP_ONE as u64);
    let fr: u64 = mu % (FP_ONE as u64);
    let frac2: u64 = fr * FRAC_ONE / (FP_ONE as u64);
    proof {
        assert(n as int == (m as int) / (FP_ONE as int));
        assert(fr as int == (m as int) % (FP_ONE as int));
        assert(frac2 as int == ((fr as int) * (FRAC_ONE as int)) / (FP_ONE as int));
    }
    let a = pow_int(x, n);
    let b = pow_frac(x, frac2, 20);
    cmul(a, b)
}

/// The score a side brings to a contest: its investment, saturated into
/// the score interval, raised to the technology exponent.
pub open spec fn spec_contest_score(x: int, m: int) -> int {
    spec_pow_fp(if x > POW_MAX as int { POW_MAX as int } else { x }, m)
}

/// The Tullock contest-success function over fixed-point values:
/// `x^m / (x^m + y^m)`, with the quotient taken so that the two
/// orientations of one contest sum exactly to one.
pub open spec fn spec_tullock(x: int, y: int, m: int) -> int {
    let xs = spec_contest_score(x, m);
    let ys = spec_contest_score(y, m);
    if xs <= ys {
        (xs * (FP_ONE as int)) / (xs + ys)
    } else {
        FP_ONE - (ys * (FP_ONE as int)) / (xs + ys)
    }
}

pub proof fn lemma_contest_score_range(x: int, m: int)
    requires
        1 <= x,
        0 <= m,
    ensures
        1 <= spec_contest_score(x, m) <= POW_MAX as int,
{
    let c = if x > POW_MAX as int { POW_MAX as int } else { x };
    lemma_pow_fp_range(c, m);
}

proof fn lemma_ratio_range(a: int, b: int)
    requires
        1 <= a,
        1 <= b,
    ensures
        0 <= (a * (FP_ONE as int)) / (a + b) <= FP_ONE as int,
{
    assert(a * (FP_ONE as int) <= (a + b) * (FP_ONE as int)) by (nonlinear_arith)
        requires
            1 <= a,
            1 <= b,
    ;
    assert(0 <= a * (FP_ONE as int)) by (nonlinear_arith)
        requires
            1 <= a,
    ;
    lemma_div_pos_is_pos(a * (FP_ONE as int), a + b);
    lemma_div_is_ordered(a * (FP_ONE as int), (a + b) * (FP_ONE as int), a + b);
    lemma_div_multiples_vanish(FP_ONE as int, a + b);
}

proof fn lemma_ratio_half(a: int)
    requires
        1 <= a,
    ensures
        (a * (FP_ONE as int)) / (a + a) == FP_HALF as int,
{
    assert(a * (FP_ONE as int) == (a + a) * (FP_HALF as int)) by (nonlinear_arith);
    lemma_div_multiples_vanish(FP_HALF as int, a + a);
}

/// The win probability of one contest and of its mirror image sum
/// exactly to one.
pub proof fn lemma_tullock_complement(x: int, y: int, m: int)
    requires
        1 <= x,
        1 <= y,
        0 <= m,
    ensures
        spec_tullock(x, y, m) + spec_tullock(y, x, m) == FP_ONE as int,
{
    let xs = spec_contest_score(x, m);
    let ys = spec_contest_score(y, m);
    lemma_contest_score_range(x, m);
    lemma_contest_score_range(y, m);
    if xs == ys {
        lemma_ratio_half(xs);
    }
}

/// A contest between equal investments is an exact coin flip.
pub proof fn lemma_tullock_equal(x: int, m: int)
    requires
        1 <= x,
        0 <= m,
    ensures
        spec_tullock(x, x, m) == FP_HALF as int,
{
    let xs = spec_contest_score(x, m);
    lemma_contest_score_range(x, m);
    lemma_ratio_half(xs);
}

pub proof fn lemma_tullock_range(x: int, y: int, m: int)
    requires
        1 <= x,
        1 <= y,
        0 <= m,
    ensures
        0 <= spec_tullock(x, y, m) <= FP_ONE as int,
{
    let xs = spec_contest_score(x, m);
    let ys = spec_contest_score(y, m);
    lemma_contest_score_range(x, m);
    lemma_contest_score_range(y, m);
    if xs <= ys {
        lemma_ratio_range(xs, ys);
    } else {
        lemma_ratio_range(ys, xs);
    }
}

/// The Tullock contest-success function: the probability, in millionths,
/// that the focal side wins a contest of investment `resource_focal`
/// against `resource_enemy` under technology `parameter_technology`.
pub fn tullock_csf(resource_focal: i64, resource_enemy: i64, parameter_technology: i64) -> (p: i64)
    requires
        1 <= resource_focal,
        1 <= resource_enemy,
        0 <= parameter_technology,
    ensures
        p == spec_tullock(resource_focal as int, resource_enemy as int, parameter_technology as int),
        0 <= p <= FP_ONE,
        resource_focal == resource_enemy ==> p == FP_HALF,
{
    let x = if resource_focal > POW_MAX { POW_MAX } else { resource_focal };
    let y = if resource_enemy > POW_MAX { POW_MAX } else { resource_enemy };
    let xs = pow_fp(x, parameter_technology);
    let ys = pow_fp(y, parameter_technology);
    proof {
        lemma_tullock_range(resource_focal as int, resource_enemy as int, parameter_technology as int);
        if resource_focal == resource_enemy {
            lemma_tullock_equal(resource_focal as int, parameter_technology as int);
        }
        assert((xs as u128) * (FP_ONE as u128) == (xs as int) * (FP_ONE as int)) by (nonlinear_arith)
            requires
                1 <= xs <= POW_MAX,
        ;
        assert((ys as u128) * (FP_ONE as u128) == (ys as int) * (FP_ONE as int)) by (nonlinear_arith)
            requires
                1 <= ys <= POW_MAX,
        ;
    }
    if xs <= ys {
        let q: u128 = (xs as u128) * (FP_ONE as u128) / (xs as u128 + ys as u128);
        proof {
            lemma_ratio_range(xs as int, ys as int);
        }
        q as i64
    } else {
        let q: u128 = (ys as u128) * (FP_ONE as u128) / (xs as u128 + ys as u128);
        proof {
            lemma_ratio_range(ys as int, xs as int);
        }
        FP_ONE - (q as i64)
    }
}

proof fn lemma_pow_frac_zero(x: int, k: nat)
    ensures
        spec_pow_frac(x, 0u64, k) == FP_ONE as int,
    decreases k,
{
    if k == 0 {
    } else {
        lemma_pow_frac_zero(spec_csqrt(x), (k - 1) as nat);
        let sh = (k - 1) as u64;
        assert((0u64 >> sh) & 1 == 0) by (bit_vector);
    }
}

/// `x^0` is one, exactly.
pub proof fn lemma_pow_fp_zero(x: int)
    requires
        1 <= x <= POW_MAX as int,
    ensures
        spec_pow_fp(x, 0) == FP_ONE as int,
{
    lemma_pow_frac_zero(x, 20);
    assert(spec_cmul(FP_ONE as int, FP_ONE as int) == FP_ONE as int) by {
        lemma_div_multiples_vanish(FP_ONE as int, FP_ONE as int);
        assert((FP_ONE as int) * (FP_ONE as int) == (FP_ONE as int) * (FP_ONE as int));
    }
}

/// The Fermi imitation probability, in millionths: `1 / (1 + e^(d/t))`
/// for resource disparity `d` and noise `t`, the exponent clamped at
/// `FERMI_CLAMP`.  At zero noise it is the best-response step function:
/// imitate exactly a strictly wealthier neighbour.
pub open spec fn spec_fermi(d: int, t: int) -> int {
    if t <= 0 {
        if d < 0 {
            FP_ONE as int
        } else {
            0
        }
    } else {
        let z0 = div_trunc(d * (FP_ONE as int), t);
        let z = if z0 > FERMI_CLAMP as int {
            FERMI_CLAMP as int
        } else if z0 < -(FERMI_CLAMP as int) {
            -(FERMI_CLAMP as int)
        } else {
            z0
        };
        if z >= 0 {
            let e = spec_pow_fp(EULER_FP as int, z);
            ((FP_ONE as int) * (FP_ONE as int)) / ((FP_ONE as int) + e)
        } else {
            let e = spec_pow_fp(EULER_FP as int, -z);
            (e * (FP_ONE as int)) / ((FP_ONE as int) + e)
        }
    }
}

pub fn fermi_probability(resource_delta: i64, parameter_noise: i64) -> (p: i64)
    requires
        0 <= parameter_noise,
    ensures
        p == spec_fermi(resource_delta as int, parameter_noise as int),
        0 <= p <= FP_ONE,
        parameter_noise == 0 ==> p == (if resource_delta < 0 { FP_ONE } else { 0i64 }),
        parameter_noise > 0 && resource_delta == 0 ==> p == FP_HALF,
{
    if parameter_noise == 0 {
        if resource_delta < 0 {
            FP_ONE
        } else {
            0
        }
    } else {
        let d = resource_delta;
        let t = parameter_noise;
        let mdm = abs_mag64(d);
        proof {
            lemma_abs_mul(d as int, FP_ONE as int);
            assert((mdm as u128) * (FP_ONE as u128) == abs_int(d as int) * (FP_ONE as int))
                by (nonlinear_arith)
                requires
                    mdm as u128 == abs_int(d as int),
                    mdm as u128 <= 9_223_372_036_854_775_808u128,
            ;
        }
        let md: u128 = (mdm as u128) * (FP_ONE as u128);
        let q: u128 = md / (t as u128);
        let zmag: i64 = if q > FERMI_CLAMP as u128 {
            FERMI_CLAMP
        } else {
            q as i64
        };
        proof {
            let z0 = div_trunc(d as int * (FP_ONE as int), t as int);
            assert(abs_int(z0) == q) by {
                lemma_div_pos_is_pos(abs_int(d as int * (FP_ONE as int)), t as int);
            }
            assert(d >= 0 ==> z0 == q);
            assert(d < 0 ==> z0 == -(q as int));
        }
        if d >= 0 || zmag == 0 {
            let e = pow_fp(EULER_FP, zmag);
            let v: u128 = ((FP_ONE as u128) * (FP_ONE as u128)) / ((FP_ONE as u128) + (e as u128));
            proof {
                lemma_ratio_range(FP_ONE as int, e as int);
                if d == 0 {
                    lemma_pow_fp_zero(EULER_FP as int);
                    lemma_ratio_half(FP_ONE as int);
                }
            }
            v as i64
        } else {
            let e = pow_fp(EULER_FP, zmag);
            proof {
                assert((e as u128) * (FP_ONE as u128) == (e as int) * (FP_ONE as int))
                    by (nonlinear_arith)
                    requires
                        1 <= e <= POW_MAX,
                ;
            }
            let v: u128 = ((e as u128) * (FP_ONE as u128)) / ((e as u128) + (FP_ONE as u128));
            proof {
                lemma_ratio_range(e as int, FP_ONE as int);
            }
            v as i64
        }
    }
}


/// Magnitude of a wide signed value.
fn abs_mag128(a: i128) -> (r: u128)
    ensures
        r == abs_int(a as int),
{
    if a >= 0 {
        a as u128
    } else {
        ((-1 - a) as u128) + 1
    }
}

/// `div_trunc(a * b, c)` without clamping; the product of two `i64`
/// factors divided by anything positive always fits an `i128`.
pub fn mul_div_wide(a: i64, b: i64, c: u128) -> (r: i128)
    requires
        c >= 1,
    ensures
        r == div_trunc(a as int * b as int, c as int),
{
    let neg = (a < 0) != (b < 0);
    let ma: u128 = abs_mag64(a) as u128;
    let mb: u128 = abs_mag64(b) as u128;
    proof {
        lemma_abs_mul(a as int, b as int);
        assert(ma * mb == abs_int(a as int * b as int)) by (nonlinear_arith)
            requires
                ma == abs_int(a as int),
                mb == abs_int(b as int),
                abs_int(a as int * b as int) == abs_int(a as int) * abs_int(b as int),
        ;
        assert(ma * mb <= 9_223_372_036_854_775_808u128 * 9_223_372_036_854_775_808u128)
            by (nonlinear_arith)
            requires
                ma <= 9_223_372_036_854_775_808u128,
                mb <= 9_223_372_036_854_775_808u128,
        ;
    }
    let mag: u128 = (ma * mb) / c;
    proof {
        assert(mag == abs_int(a as int * b as int) / (c as int));
        lemma_div_pos_is_pos(abs_int(a as int * b as int), c as int);
    }
    if neg {
        -(mag as i128)
    } else {
        mag as i128
    }
}

/// `div_trunc(a, c)` on a wide value.
pub fn div_trunc_wide(a: i128, c: u128) -> (r: i128)
    requires
        c >= 1,
    ensures
        r == div_trunc(a as int, c as int),
{
    let ma = abs_mag128(a);
    let mag: u128 = ma / c;
    proof {
        lemma_div_pos_is_pos(ma as int, c as int);
        lemma_div_nonincreasing(ma as int, c as int);
    }
    if a < 0 {
        if mag >= 170_141_183_460_469_231_731_687_303_715_884_105_728u128 {
            i128::MIN
        } else {
            -(mag as i128)
        }
    } else {
        mag as i128
    }
}

/// Clamp a wide value into the `i64` range.
pub fn clamp_to_i64(a: i128) -> (r: i64)
    ensures
        r == clamp_i64(a as int),
{
    if a > i64::MAX as i128 {
        i64::MAX
    } else if a < i64::MIN as i128 {
        i64::MIN
    } else {
        a as i64
    }
}

/// A wealth average over a positive count stays within the `i64` range.
pub proof fn lemma_avg_in_range(sum: int, c: int)
    requires
        c >= 1,
        c * (i64::MIN as int) <= sum <= c * (i64::MAX as int),
    ensures
        i64::MIN as int <= div_trunc(sum, c) <= i64::MAX as int,
{
    if sum >= 0 {
        vstd::arithmetic::div_mod::lemma_div_pos_is_pos(sum, c);
        vstd::arithmetic::div_mod::lemma_div_is_ordered(sum, c * (i64::MAX as int), c);
        vstd::arithmetic::div_mod::lemma_div_multiples_vanish(i64::MAX as int, c);
    } else {
        assert(abs_int(sum) <= c * 9_223_372_036_854_775_808) by (nonlinear_arith)
            requires
                c * (i64::MIN as int) <= sum < 0,
        ;
        vstd::arithmetic::div_mod::lemma_div_pos_is_pos(abs_int(sum), c);
        vstd::arithmetic::div_mod::lemma_div_is_ordered(abs_int(sum),
            c * 9_223_372_036_854_775_808, c);
        vstd::arithmetic::div_mod::lemma_div_multiples_vanish(9_223_372_036_854_775_808, c);
    }
}

} // verus!
