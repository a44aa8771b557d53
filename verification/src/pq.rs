//! The PQ curve of SMPTE ST 2084 on code values: from a 16-bit signal level
//! to light in whole nits.
//!
//! The curve takes a signal `e` of the unit interval to the fraction
//! `(max(e^(1/m2) - c1, 0) / (c2 - c3 * e^(1/m2)))^(1/m1)` of 10,000 nits,
//! with `m1 = 1305/8192`, `m2 = 2523/32`, `c1 = 107/128`, `c2 = 2413/128` and
//! `c3 = 2392/128`. All five are rational, so the curve is a chain of integer
//! powers, integer roots and one quotient, and every step of it does not
//! decrease. `light_at_most` and `light_above` say in exact integer arithmetic
//! what it is for the light of a code value to lie below or above a number of
//! nits; the functions here compute in fixed point, rounding every step one
//! way, and are proved against those two.

use crate::fixed::{
    fx_pow_frac_hi, fx_pow_frac_lo, fx_pow_hi, fx_pow_lo, fx_root_hi, fx_root_lo,
    lemma_fx_pow_frac_ends, lemma_fx_pow_frac_monotone, lemma_fx_pow_hi_exact,
    lemma_fx_pow_lo_exact, lemma_fx_pow_monotone, lemma_fx_root_hi, lemma_fx_root_lo,
    pow_at_least, pow_at_most, pow_frac_hi, pow_frac_lo, ONE,
};
use vstd::arithmetic::power::{lemma_pow0, lemma_pow1, lemma_pow_adds, lemma_pow_positive, pow};
use vstd::prelude::*;

verus! {

/// The largest code value: the signal level 1.
pub const CODE_MAX: u16 = 65535;

/// The light, in nits, that the signal level 1 stands for.
pub const PEAK_NITS: u16 = 10000;

/// The numerator of the fraction inside the curve, for `p = e^(1/m2)`:
/// 128 times `max(p - c1, 0)`.
pub open spec fn ratio_top(p: int) -> int {
    if 128 * p > 107 * ONE {
        128 * p - 107 * ONE
    } else {
        0
    }
}

/// The denominator of the fraction inside the curve: 128 times `c2 - c3 * p`.
pub open spec fn ratio_bottom(p: int) -> int {
    2413 * ONE - 2392 * p
}

/// In exact arithmetic, the fraction inside the curve is at most `b`.
pub open spec fn ratio_at_most(p: int, b: int) -> bool {
    ratio_top(p) * ONE <= b * ratio_bottom(p)
}

/// In exact arithmetic, the fraction inside the curve is at least `b`.
pub open spec fn ratio_at_least(p: int, b: int) -> bool {
    ratio_top(p) * ONE >= b * ratio_bottom(p)
}

/// Each of the six numbers is a fixed-point number of the unit interval.
pub open spec fn in_unit_interval(e: int, r: int, p: int, b: int, s: int, y: int) -> bool {
    &&& 0 <= e <= ONE
    &&& 0 <= r <= ONE
    &&& 0 <= p <= ONE
    &&& 0 <= b <= ONE
    &&& 0 <= s <= ONE
    &&& 0 <= y <= ONE
}

/// The six numbers bound the steps of the curve from above, in exact
/// arithmetic: `e` is at least the signal of the code value, `r` at least the
/// 2523rd root of `e`, `p` at least the 32nd power of `r`, `b` at least the
/// fraction at `p`, `s` at least the 1305th root of `b` and `y` at least the
/// 8192nd power of `s`. As no step decreases, `y` is then at least the light
/// of the code value, as a fraction of 10,000 nits.
pub open spec fn steps_above(code: int, e: int, r: int, p: int, b: int, s: int, y: int) -> bool {
    &&& in_unit_interval(e, r, p, b, s, y)
    &&& code * ONE <= 65535 * e
    &&& pow_at_least(r, 2523, e)
    &&& pow_at_most(r, 32, p)
    &&& ratio_at_most(p, b)
    &&& pow_at_least(s, 1305, b)
    &&& pow_at_most(s, 8192, y)
}

/// The six numbers bound the steps of the curve from below, in exact
/// arithmetic: each is at most what `steps_above` has it at least.
pub open spec fn steps_below(code: int, e: int, r: int, p: int, b: int, s: int, y: int) -> bool {
    &&& in_unit_interval(e, r, p, b, s, y)
    &&& code * ONE >= 65535 * e
    &&& pow_at_most(r, 2523, e)
    &&& pow_at_least(r, 32, p)
    &&& ratio_at_least(p, b)
    &&& pow_at_most(s, 1305, b)
    &&& pow_at_least(s, 8192, y)
}

/// The light of the code value is at most `nits`.
pub open spec fn light_at_most(code: int, nits: int) -> bool {
    exists|e: int, r: int, p: int, b: int, s: int, y: int|
        #![trigger steps_above(code, e, r, p, b, s, y)]
        steps_above(code, e, r, p, b, s, y) && 10000 * y <= nits * ONE
}

/// The light of the code value is more than `nits`.
pub open spec fn light_above(code: int, nits: int) -> bool {
    exists|e: int, r: int, p: int, b: int, s: int, y: int|
        #![trigger steps_below(code, e, r, p, b, s, y)]
        steps_below(code, e, r, p, b, s, y) && 10000 * y > nits * ONE
}

/// The signal level of a code value, rounded down.
pub open spec fn signal_lo(code: int) -> int {
    code * ONE / 65535
}

/// The signal level of a code value, rounded up.
pub open spec fn signal_hi(code: int) -> int {
    (code * ONE + 65534) / 65535
}

/// The fraction inside the curve, rounded down.
pub open spec fn ratio_lo(p: int) -> int {
    ratio_top(p) * ONE / ratio_bottom(p)
}

/// The fraction inside the curve, rounded up.
pub open spec fn ratio_hi(p: int) -> int {
    (ratio_top(p) * ONE + ratio_bottom(p) - 1) / ratio_bottom(p)
}

/// The curve with every step rounded down.
pub open spec fn pq_eotf_lo(e: int) -> int {
    fx_pow_frac_lo(ratio_lo(fx_pow_frac_lo(e, 32, 2523)), 8192, 1305)
}

/// The curve with every step rounded up.
pub open spec fn pq_eotf_hi(e: int) -> int {
    fx_pow_frac_hi(ratio_hi(fx_pow_frac_hi(e, 32, 2523)), 8192, 1305)
}

/// A fixed-point fraction of 10,000 nits in whole nits, rounded up.
pub open spec fn whole_nits(y: int) -> int {
    (10000 * y + ONE - 1) / (ONE as int)
}

/// The light of a code value in whole nits as the steps rounded down give it.
pub open spec fn nits_lower(code: int) -> int {
    whole_nits(pq_eotf_lo(signal_lo(code)))
}

/// The light of a code value in whole nits as the steps rounded up give it.
pub open spec fn nits_upper(code: int) -> int {
    whole_nits(pq_eotf_hi(signal_hi(code)))
}

/// In exact arithmetic, a larger base that is not negative has no smaller
/// power, and a larger one but for the zeroth.
proof fn lemma_pow_base(a: int, b: int, n: nat)
    requires
        0 <= a <= b,
    ensures
        0 <= pow(a, n) <= pow(b, n),
        a < b && n >= 1 ==> pow(a, n) < pow(b, n),
    decreases n,
{
    if n == 0 {
        lemma_pow0(a);
        lemma_pow0(b);
    } else {
        let m = (n - 1) as nat;
        lemma_pow_base(a, b, m);
        lemma_pow_adds(a, 1, m);
        lemma_pow_adds(b, 1, m);
        lemma_pow1(a);
        lemma_pow1(b);
        if b > 0 {
            lemma_pow_positive(b, m);
        }
        assert(0 <= a * pow(a, m) <= b * pow(b, m) && (a < b ==> a * pow(a, m) < b * pow(b, m)))
            by (nonlinear_arith)
            requires
                0 <= a <= b,
                0 <= pow(a, m) <= pow(b, m),
                b > 0 ==> pow(b, m) > 0,
        ;
    }
}

/// From an upper bound on a power of `lo` and a lower bound on the same power
/// of `hi`, with the first no larger than the second: `lo` is at most `hi`.
proof fn lemma_roots_ordered(lo: int, hi: int, n: nat, v: int, w: int)
    requires
        0 <= lo,
        0 <= hi,
        n >= 1,
        v <= w,
        pow_at_most(lo, n, v),
        pow_at_least(hi, n, w),
    ensures
        lo <= hi,
{
    let big = pow(ONE as int, n);
    lemma_pow_positive(ONE as int, n);
    assert(v * big <= w * big) by (nonlinear_arith)
        requires
            v <= w,
            0 < big,
    ;
    if hi < lo {
        lemma_pow_base(hi, lo, n);
        assert(pow(hi, n) * ONE < pow(lo, n) * ONE) by (nonlinear_arith)
            requires
                pow(hi, n) < pow(lo, n),
        ;
    }
}

/// From a lower bound on a power of `lo` and an upper bound on the same power
/// of `hi`, with `lo` no larger than `hi`: the first bound is at most the
/// second.
proof fn lemma_powers_ordered(lo: int, hi: int, n: nat, v: int, w: int)
    requires
        0 <= lo <= hi,
        pow_at_least(lo, n, v),
        pow_at_most(hi, n, w),
    ensures
        v <= w,
{
    let big = pow(ONE as int, n);
    lemma_pow_positive(ONE as int, n);
    lemma_pow_base(lo, hi, n);
    assert(pow(lo, n) * ONE <= pow(hi, n) * ONE) by (nonlinear_arith)
        requires
            pow(lo, n) <= pow(hi, n),
    ;
    assert(v <= w) by (nonlinear_arith)
        requires
            v * big <= w * big,
            0 < big,
    ;
}

/// From a lower bound on the fraction at `lo` and an upper bound on the
/// fraction at `hi`, with `lo` no larger than `hi`: the first bound is at most
/// the second.
proof fn lemma_ratios_ordered(lo: int, hi: int, v: int, w: int)
    requires
        0 <= lo <= hi <= ONE,
        0 <= v,
        ratio_at_least(lo, v),
        ratio_at_most(hi, w),
    ensures
        v <= w,
{
    let one = ONE as int;
    assert(v <= w) by (nonlinear_arith)
        requires
            0 <= v,
            0 < one,
            0 < ratio_bottom(hi) <= ratio_bottom(lo),
            0 <= ratio_top(lo) <= ratio_top(hi),
            ratio_top(lo) * one >= v * ratio_bottom(lo),
            ratio_top(hi) * one <= w * ratio_bottom(hi),
    ;
}

/// The two statements about the light of a code value agree: where it is at
/// most `a` nits and more than `b` nits, `b` is less than `a`. So at most one
/// number `k` has the light at most `k` and more than `k - 1` nits: the light
/// rounded up.
pub proof fn lemma_light_bounds_agree(code: int, a: int, b: int)
    requires
        light_at_most(code, a),
        light_above(code, b),
    ensures
        b < a,
{
    let (e_hi, r_hi, p_hi, b_hi, s_hi, y_hi) = choose|e: int, r: int, p: int, q: int, s: int, y: int|
        #![trigger steps_above(code, e, r, p, q, s, y)]
        steps_above(code, e, r, p, q, s, y) && 10000 * y <= a * ONE;
    let (e_lo, r_lo, p_lo, b_lo, s_lo, y_lo) = choose|e: int, r: int, p: int, q: int, s: int, y: int|
        #![trigger steps_below(code, e, r, p, q, s, y)]
        steps_below(code, e, r, p, q, s, y) && 10000 * y > b * ONE;
    lemma_roots_ordered(r_lo, r_hi, 2523, e_lo, e_hi);
    lemma_powers_ordered(r_lo, r_hi, 32, p_lo, p_hi);
    lemma_ratios_ordered(p_lo, p_hi, b_lo, b_hi);
    lemma_roots_ordered(s_lo, s_hi, 1305, b_lo, b_hi);
    lemma_powers_ordered(s_lo, s_hi, 8192, y_lo, y_hi);
}

/// The fraction inside the curve keeps to the unit interval and does not
/// decrease, whichever way it is rounded; it is 0 at 0 and 1 at 1; and it is
/// bounded by the exact fraction.
pub proof fn lemma_ratio(p: int, q: int)
    requires
        0 <= p <= q <= ONE,
    ensures
        0 <= ratio_lo(p) <= ratio_lo(q) <= ONE,
        0 <= ratio_hi(p) <= ratio_hi(q) <= ONE,
        ratio_lo(0) == 0 && ratio_hi(0) == 0,
        ratio_lo(ONE as int) == ONE && ratio_hi(ONE as int) == ONE,
        ratio_at_least(p, ratio_lo(p)),
        ratio_at_most(p, ratio_hi(p)),
        ratio_top(p) == 0 ==> ratio_lo(p) == 0 && ratio_hi(p) == 0,
{
    let one = ONE as int;
    let tp = ratio_top(p);
    let tq = ratio_top(q);
    let bp = ratio_bottom(p);
    let bq = ratio_bottom(q);
    assert(0 <= tp <= tq && 0 < bq <= bp && tp <= bp && tq <= bq);
    assert(0 <= tp * one / bp <= tq * one / bq <= one) by (nonlinear_arith)
        requires
            0 <= tp <= tq,
            0 < bq <= bp,
            tq <= bq,
            0 < one,
    ;
    assert(0 <= (tp * one + bp - 1) / bp <= (tq * one + bq - 1) / bq <= one) by (nonlinear_arith)
        requires
            0 <= tp <= tq,
            0 < bq <= bp,
            tq <= bq,
            0 < one,
    ;
    assert((21 * one) * one / (21 * one) == one && ((21 * one) * one + 21 * one - 1) / (21 * one)
        == one) by (nonlinear_arith)
        requires
            0 < one,
    ;
    assert(0 * one / (2413 * one) == 0 && (0 * one + 2413 * one - 1) / (2413 * one) == 0)
        by (nonlinear_arith)
        requires
            0 < one,
    ;
    assert(0 * one / bp == 0 && (0 * one + bp - 1) / bp == 0) by (nonlinear_arith)
        requires
            0 < bp,
    ;
    assert(tp * one >= (tp * one / bp) * bp && tp * one <= ((tp * one + bp - 1) / bp) * bp)
        by (nonlinear_arith)
        requires
            0 <= tp,
            0 < bp,
            0 < one,
    ;
}

/// The curve keeps to the unit interval and does not decrease, whichever way
/// it is rounded, and takes 0 to 0 and 1 to 1.
pub proof fn lemma_pq_eotf_monotone(d: int, e: int)
    requires
        0 <= d <= e <= ONE,
    ensures
        0 <= pq_eotf_lo(d) <= pq_eotf_lo(e) <= ONE,
        0 <= pq_eotf_hi(d) <= pq_eotf_hi(e) <= ONE,
        pq_eotf_lo(0) == 0 && pq_eotf_hi(0) == 0,
        pq_eotf_lo(ONE as int) == ONE && pq_eotf_hi(ONE as int) == ONE,
{
    lemma_fx_pow_frac_monotone(d, e, 32, 2523);
    lemma_ratio(fx_pow_frac_lo(d, 32, 2523), fx_pow_frac_lo(e, 32, 2523));
    lemma_ratio(fx_pow_frac_hi(d, 32, 2523), fx_pow_frac_hi(e, 32, 2523));
    lemma_fx_pow_frac_monotone(
        ratio_lo(fx_pow_frac_lo(d, 32, 2523)),
        ratio_lo(fx_pow_frac_lo(e, 32, 2523)),
        8192,
        1305,
    );
    lemma_fx_pow_frac_monotone(
        ratio_hi(fx_pow_frac_hi(d, 32, 2523)),
        ratio_hi(fx_pow_frac_hi(e, 32, 2523)),
        8192,
        1305,
    );
    lemma_fx_pow_frac_ends(32, 2523);
    lemma_fx_pow_frac_ends(8192, 1305);
}

/// Black is 0 nits and the signal level 1 is 10,000 nits, whichever way the
/// steps are rounded.
pub proof fn lemma_nits_ends()
    ensures
        nits_lower(0) == 0 && nits_upper(0) == 0,
        nits_lower(65535) == 10000 && nits_upper(65535) == 10000,
{
    assert(signal_lo(0) == 0 && signal_hi(0) == 0);
    assert(signal_lo(65535) == ONE && signal_hi(65535) == ONE);
    lemma_pq_eotf_monotone(0, ONE as int);
}

/// A larger code value stands for no less light, and none for more than
/// 10,000 nits, whichever way the steps are rounded.
pub proof fn lemma_nits_monotone(a: int, b: int)
    requires
        0 <= a <= b <= 65535,
    ensures
        0 <= nits_lower(a) <= nits_lower(b) <= 10000,
        0 <= nits_upper(a) <= nits_upper(b) <= 10000,
{
    lemma_pq_eotf_monotone(signal_lo(a), signal_lo(b));
    lemma_pq_eotf_monotone(signal_hi(a), signal_hi(b));
}

/// The steps rounded up bound the light of a code value from above, and the
/// steps rounded down bound it from below: the light is at most `nits_upper`
/// nits, and more than `nits_lower - 1` nits where that is not negative. Where
/// the two are equal, they are the light rounded up.
pub proof fn lemma_nits_enclose(code: int)
    requires
        0 <= code <= 65535,
    ensures
        light_at_most(code, nits_upper(code)),
        nits_lower(code) >= 1 ==> light_above(code, nits_lower(code) - 1),
        nits_lower(code) <= nits_upper(code),
{
    let e_hi = signal_hi(code);
    let r_hi = fx_root_hi(e_hi, 2523);
    let p_hi = fx_pow_hi(r_hi, 32);
    let b_hi = ratio_hi(p_hi);
    let s_hi = fx_root_hi(b_hi, 1305);
    let y_hi = fx_pow_hi(s_hi, 8192);
    lemma_fx_root_hi(e_hi, 2523);
    lemma_fx_pow_hi_exact(r_hi, 32);
    lemma_fx_pow_monotone(r_hi, r_hi, 32);
    lemma_ratio(p_hi, p_hi);
    lemma_fx_root_hi(b_hi, 1305);
    lemma_fx_pow_hi_exact(s_hi, 8192);
    lemma_fx_pow_monotone(s_hi, s_hi, 8192);
    assert(steps_above(code, e_hi, r_hi, p_hi, b_hi, s_hi, y_hi));
    assert(10000 * y_hi <= nits_upper(code) * ONE);

    let e_lo = signal_lo(code);
    let r_lo = fx_root_lo(e_lo, 2523);
    let p_lo = fx_pow_lo(r_lo, 32);
    let b_lo = ratio_lo(p_lo);
    let s_lo = fx_root_lo(b_lo, 1305);
    let y_lo = fx_pow_lo(s_lo, 8192);
    lemma_fx_root_lo(e_lo, 2523);
    lemma_fx_pow_lo_exact(r_lo, 32);
    lemma_fx_pow_monotone(r_lo, r_lo, 32);
    lemma_ratio(p_lo, p_lo);
    lemma_fx_root_lo(b_lo, 1305);
    lemma_fx_pow_lo_exact(s_lo, 8192);
    lemma_fx_pow_monotone(s_lo, s_lo, 8192);
    assert(steps_below(code, e_lo, r_lo, p_lo, b_lo, s_lo, y_lo));
    assert(10000 * y_lo > (nits_lower(code) - 1) * ONE);
    if nits_lower(code) >= 1 {
        lemma_light_bounds_agree(code, nits_upper(code), nits_lower(code) - 1);
    } else {
        lemma_nits_monotone(code, code);
    }
}

/// The curve at `e` with every step rounded down.
fn eotf_lo(e: u128) -> (y: u128)
    requires
        e <= ONE,
    ensures
        y == pq_eotf_lo(e as int),
        y <= ONE,
{
    let p = pow_frac_lo(e, 32, 2523);
    proof {
        lemma_ratio(p as int, p as int);
    }
    let ratio: u128 = if 128 * p > 107 * ONE {
        let top: u128 = 128 * p - 107 * ONE;
        let bottom: u128 = 2413 * ONE - 2392 * p;
        top * ONE / bottom
    } else {
        0
    };
    pow_frac_lo(ratio, 8192, 1305)
}

/// The curve at `e` with every step rounded up.
fn eotf_hi(e: u128) -> (y: u128)
    requires
        e <= ONE,
    ensures
        y == pq_eotf_hi(e as int),
        y <= ONE,
{
    let p = pow_frac_hi(e, 32, 2523);
    proof {
        lemma_ratio(p as int, p as int);
    }
    let ratio: u128 = if 128 * p > 107 * ONE {
        let top: u128 = 128 * p - 107 * ONE;
        let bottom: u128 = 2413 * ONE - 2392 * p;
        (top * ONE + (bottom - 1)) / bottom
    } else {
        0
    };
    pow_frac_hi(ratio, 8192, 1305)
}

/// Two whole numbers of nits that enclose the light of the PQ code value
/// `max_channel`, rounded up: the first is not above it and the second not
/// below it. Where they are equal, both are that light.
pub fn nits_bounds(max_channel: u16) -> (bounds: (u16, u16))
    ensures
        bounds.0 == nits_lower(max_channel as int),
        bounds.1 == nits_upper(max_channel as int),
        bounds.0 <= bounds.1 <= PEAK_NITS,
        light_at_most(max_channel as int, bounds.1 as int),
        bounds.0 >= 1 ==> light_above(max_channel as int, bounds.0 - 1),
{
    let code: u128 = max_channel as u128;
    let lower: u128 = (10000 * eotf_lo(code * ONE / 65535) + (ONE - 1)) / ONE;
    proof {
        lemma_nits_enclose(max_channel as int);
        lemma_nits_monotone(max_channel as int, max_channel as int);
    }
    (lower as u16, to_nits(max_channel))
}

/// The light in nits, rounded up, of the PQ code value `max_channel`.
///
/// Every step of the curve is rounded up, so that the result is never below
/// the light of the code value. It is that light rounded up, and not a nit
/// more, wherever rounding every step down leads to the same number.
pub fn to_nits(max_channel: u16) -> (nits: u16)
    ensures
        nits == nits_upper(max_channel as int),
        nits <= PEAK_NITS,
        light_at_most(max_channel as int, nits as int),
        nits == nits_lower(max_channel as int) && nits >= 1 ==> light_above(
            max_channel as int,
            nits - 1,
        ),
{
    let code: u128 = max_channel as u128;
    let e: u128 = (code * ONE + 65534) / 65535;
    let y = eotf_hi(e);
    let nits: u128 = (10000 * y + (ONE - 1)) / ONE;
    proof {
        lemma_nits_enclose(max_channel as int);
    }
    nits as u16
}

} // verus!
