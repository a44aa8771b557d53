//! Unsigned fixed-point arithmetic on the unit interval, with 60 fractional
//! bits and directed rounding: the integer `x` stands for the real number
//! `x / 2^60`.
//!
//! Every operation comes in two forms. The one named `lo` never exceeds the
//! exact result and the one named `hi` never falls below it, so that a chain
//! of `lo` operations bounds a nondecreasing formula from below and a chain of
//! `hi` operations bounds it from above. What "exact" means is stated with
//! integer powers: see `pow_at_most` and `pow_at_least`.

use vstd::arithmetic::power::{lemma_pow0, lemma_pow1, lemma_pow_adds, lemma_pow_positive, pow};
use vstd::prelude::*;

verus! {

/// The fixed-point number 1.
pub const ONE: u128 = 0x1000_0000_0000_0000;

/// The product of two fixed-point numbers, rounded down.
pub open spec fn fx_mul_lo(a: int, b: int) -> int {
    a * b / (ONE as int)
}

/// The product of two fixed-point numbers, rounded up.
pub open spec fn fx_mul_hi(a: int, b: int) -> int {
    (a * b + ONE - 1) / (ONE as int)
}

/// `x` to the power `n` by squaring, every product rounded down.
pub open spec fn fx_pow_lo(x: int, n: nat) -> int
    decreases n,
{
    if n == 0 {
        ONE as int
    } else if n % 2 == 0 {
        let half = fx_pow_lo(x, n / 2);
        fx_mul_lo(half, half)
    } else {
        fx_mul_lo(fx_pow_lo(x, (n - 1) as nat), x)
    }
}

/// `x` to the power `n` by squaring, every product rounded up.
pub open spec fn fx_pow_hi(x: int, n: nat) -> int
    decreases n,
{
    if n == 0 {
        ONE as int
    } else if n % 2 == 0 {
        let half = fx_pow_hi(x, n / 2);
        fx_mul_hi(half, half)
    } else {
        fx_mul_hi(fx_pow_hi(x, (n - 1) as nat), x)
    }
}

/// `r` is the largest number of the unit interval whose `n`-th power, rounded
/// up, does not exceed `v`.
pub open spec fn is_root_lo(r: int, v: int, n: nat) -> bool {
    &&& 0 <= r <= ONE
    &&& fx_pow_hi(r, n) <= v
    &&& r < ONE ==> v < fx_pow_hi(r + 1, n)
}

/// The `n`-th root of `v` from below: the number that `is_root_lo` singles
/// out.
pub open spec fn fx_root_lo(v: int, n: nat) -> int {
    choose|r: int| is_root_lo(r, v, n)
}

/// `r` is the smallest number of the unit interval whose `n`-th power, rounded
/// down, is not below `v`.
pub open spec fn is_root_hi(r: int, v: int, n: nat) -> bool {
    &&& 0 <= r <= ONE
    &&& v <= fx_pow_lo(r, n)
    &&& r > 0 ==> fx_pow_lo(r - 1, n) < v
}

/// The `n`-th root of `v` from above: the number that `is_root_hi` singles
/// out.
pub open spec fn fx_root_hi(v: int, n: nat) -> int {
    choose|r: int| is_root_hi(r, v, n)
}

/// `v` to the power `p / q` from below: the `p`-th power of the `q`-th root.
pub open spec fn fx_pow_frac_lo(v: int, p: nat, q: nat) -> int {
    fx_pow_lo(fx_root_lo(v, q), p)
}

/// `v` to the power `p / q` from above: the `p`-th power of the `q`-th root.
pub open spec fn fx_pow_frac_hi(v: int, p: nat, q: nat) -> int {
    fx_pow_hi(fx_root_hi(v, q), p)
}

/// In exact arithmetic, the `n`-th power of `x` is at most `y`:
/// `(x / ONE)^n <= y / ONE`.
pub open spec fn pow_at_most(x: int, n: nat, y: int) -> bool {
    pow(x, n) * ONE <= y * pow(ONE as int, n)
}

/// In exact arithmetic, the `n`-th power of `x` is at least `y`:
/// `(x / ONE)^n >= y / ONE`.
pub open spec fn pow_at_least(x: int, n: nat, y: int) -> bool {
    pow(x, n) * ONE >= y * pow(ONE as int, n)
}

/// A product of two numbers of the unit interval lies in it whichever way it
/// is rounded, rounding down gives no more than rounding up, and larger
/// factors give no smaller product.
pub proof fn lemma_fx_mul(a: int, b: int, c: int, d: int)
    requires
        0 <= a <= c <= ONE,
        0 <= b <= d <= ONE,
    ensures
        0 <= fx_mul_lo(a, b) <= fx_mul_lo(c, d) <= ONE,
        0 <= fx_mul_hi(a, b) <= fx_mul_hi(c, d) <= ONE,
        fx_mul_lo(a, b) <= fx_mul_hi(a, b),
{
    assert(0 <= a * b <= c * d <= (ONE as int) * (ONE as int)) by (nonlinear_arith)
        requires
            0 <= a <= c <= ONE,
            0 <= b <= d <= ONE,
    ;
}

/// A power of a number of the unit interval lies in it whichever way it is
/// rounded, rounding down gives no more than rounding up, and a larger base
/// gives no smaller power.
pub proof fn lemma_fx_pow_monotone(x: int, y: int, n: nat)
    requires
        0 <= x <= y <= ONE,
    ensures
        0 <= fx_pow_lo(x, n) <= fx_pow_lo(y, n) <= ONE,
        0 <= fx_pow_hi(x, n) <= fx_pow_hi(y, n) <= ONE,
        fx_pow_lo(x, n) <= fx_pow_hi(x, n),
    decreases n,
{
    if n == 0 {
    } else if n % 2 == 0 {
        lemma_fx_pow_monotone(x, y, n / 2);
        let lx = fx_pow_lo(x, n / 2);
        let ly = fx_pow_lo(y, n / 2);
        let hx = fx_pow_hi(x, n / 2);
        let hy = fx_pow_hi(y, n / 2);
        lemma_fx_mul(lx, lx, ly, ly);
        lemma_fx_mul(hx, hx, hy, hy);
        lemma_fx_mul(lx, lx, hx, hx);
    } else {
        lemma_fx_pow_monotone(x, y, (n - 1) as nat);
        let lx = fx_pow_lo(x, (n - 1) as nat);
        let ly = fx_pow_lo(y, (n - 1) as nat);
        let hx = fx_pow_hi(x, (n - 1) as nat);
        let hy = fx_pow_hi(y, (n - 1) as nat);
        lemma_fx_mul(lx, x, ly, y);
        lemma_fx_mul(hx, x, hy, y);
        lemma_fx_mul(lx, x, hx, x);
    }
}

/// Every power of 0 but the zeroth is 0, whichever way it is rounded.
pub proof fn lemma_fx_pow_of_zero(n: nat)
    requires
        n >= 1,
    ensures
        fx_pow_lo(0, n) == 0,
        fx_pow_hi(0, n) == 0,
    decreases n,
{
    if n % 2 == 0 {
        lemma_fx_pow_of_zero(n / 2);
    } else {
        assert(fx_pow_lo(0, (n - 1) as nat) * 0 == 0);
        assert(fx_pow_hi(0, (n - 1) as nat) * 0 == 0);
    }
}

/// Every power of 1 is 1, whichever way it is rounded.
pub proof fn lemma_fx_pow_of_one(n: nat)
    ensures
        fx_pow_lo(ONE as int, n) == ONE,
        fx_pow_hi(ONE as int, n) == ONE,
    decreases n,
{
    assert(fx_mul_lo(ONE as int, ONE as int) == ONE && fx_mul_hi(ONE as int, ONE as int) == ONE)
        by (nonlinear_arith);
    if n == 0 {
    } else if n % 2 == 0 {
        lemma_fx_pow_of_one(n / 2);
    } else {
        lemma_fx_pow_of_one((n - 1) as nat);
    }
}

/// Rounded down, no power but the zeroth exceeds its base.
pub proof fn lemma_fx_pow_shrinks(x: int, n: nat)
    requires
        0 <= x <= ONE,
        n >= 1,
    ensures
        fx_pow_lo(x, n) <= x,
    decreases n,
{
    if n % 2 == 0 {
        lemma_fx_pow_shrinks(x, n / 2);
        lemma_fx_pow_monotone(x, x, n / 2);
        let half = fx_pow_lo(x, n / 2);
        assert(half * half <= (ONE as int) * x) by (nonlinear_arith)
            requires
                0 <= half <= x,
                half <= ONE,
        ;
    } else {
        lemma_fx_pow_monotone(x, x, (n - 1) as nat);
        let rest = fx_pow_lo(x, (n - 1) as nat);
        assert(rest * x <= (ONE as int) * x) by (nonlinear_arith)
            requires
                0 <= rest <= ONE,
                0 <= x,
        ;
    }
}

/// Rounded down, a power does not exceed the exact power.
pub proof fn lemma_fx_pow_lo_exact(x: int, n: nat)
    requires
        0 <= x <= ONE,
    ensures
        pow_at_least(x, n, fx_pow_lo(x, n)),
    decreases n,
{
    let one = ONE as int;
    if n == 0 {
        lemma_pow0(x);
        lemma_pow0(one);
    } else if n % 2 == 0 {
        let h = n / 2;
        lemma_fx_pow_lo_exact(x, h);
        lemma_fx_pow_monotone(x, x, h);
        lemma_pow_adds(x, h, h);
        lemma_pow_adds(one, h, h);
        lemma_pow_positive(one, h);
        let f = fx_pow_lo(x, h);
        let w = fx_pow_lo(x, n);
        let big = pow(one, h);
        let exact = pow(x, h);
        assert(w * one <= f * f);
        lemma_square_lo(w, f, big, exact, one);
    } else {
        let m = (n - 1) as nat;
        lemma_fx_pow_lo_exact(x, m);
        lemma_fx_pow_monotone(x, x, m);
        lemma_pow_adds(x, 1, m);
        lemma_pow_adds(one, 1, m);
        lemma_pow1(x);
        lemma_pow1(one);
        lemma_pow_positive(one, m);
        let f = fx_pow_lo(x, m);
        let w = fx_pow_lo(x, n);
        let big = pow(one, m);
        let exact = pow(x, m);
        assert(w * one <= f * x);
        assert(w * (one * big) <= (x * exact) * one) by (nonlinear_arith)
            requires
                w * one <= f * x,
                f * big <= exact * one,
                0 <= x,
                0 <= f,
                0 < big,
                0 < one,
        ;
    }
}

/// Rounded up, a power is not below the exact power.
pub proof fn lemma_fx_pow_hi_exact(x: int, n: nat)
    requires
        0 <= x <= ONE,
    ensures
        pow_at_most(x, n, fx_pow_hi(x, n)),
    decreases n,
{
    let one = ONE as int;
    if n == 0 {
        lemma_pow0(x);
        lemma_pow0(one);
    } else if n % 2 == 0 {
        let h = n / 2;
        lemma_fx_pow_hi_exact(x, h);
        lemma_fx_pow_monotone(x, x, h);
        lemma_pow_adds(x, h, h);
        lemma_pow_adds(one, h, h);
        lemma_pow_positive(one, h);
        lemma_pow_nonnegative(x, h);
        let f = fx_pow_hi(x, h);
        let w = fx_pow_hi(x, n);
        let big = pow(one, h);
        let exact = pow(x, h);
        assert(w * one >= f * f);
        lemma_square_hi(w, f, big, exact, one);
    } else {
        let m = (n - 1) as nat;
        lemma_fx_pow_hi_exact(x, m);
        lemma_fx_pow_monotone(x, x, m);
        lemma_pow_adds(x, 1, m);
        lemma_pow_adds(one, 1, m);
        lemma_pow1(x);
        lemma_pow1(one);
        lemma_pow_positive(one, m);
        let f = fx_pow_hi(x, m);
        let w = fx_pow_hi(x, n);
        let big = pow(one, m);
        let exact = pow(x, m);
        assert(w * one >= f * x);
        assert(w * (one * big) >= (x * exact) * one) by (nonlinear_arith)
            requires
                w * one >= f * x,
                f * big >= exact * one,
                0 <= x,
                0 <= f,
                0 < big,
                0 < one,
        ;
    }
}

/// A power of a number that is not negative is not negative.
proof fn lemma_pow_nonnegative(x: int, n: nat)
    requires
        0 <= x,
    ensures
        0 <= pow(x, n),
    decreases n,
{
    if n == 0 {
        lemma_pow0(x);
    } else {
        lemma_pow_nonnegative(x, (n - 1) as nat);
        lemma_pow_adds(x, 1, (n - 1) as nat);
        lemma_pow1(x);
        assert(0 <= x * pow(x, (n - 1) as nat)) by (nonlinear_arith)
            requires
                0 <= x,
                0 <= pow(x, (n - 1) as nat),
        ;
    }
}

/// The squaring step of `lemma_fx_pow_lo_exact`: from `f / one <= exact / big`
/// and `w / one <= (f / one)^2` to `w / one <= (exact / big)^2`.
proof fn lemma_square_lo(w: int, f: int, big: int, exact: int, one: int)
    requires
        w * one <= f * f,
        f * big <= exact * one,
        0 <= f,
        0 < big,
        0 < one,
    ensures
        w * (big * big) <= (exact * exact) * one,
{
    assert((f * big) * (f * big) <= (exact * one) * (exact * one)) by (nonlinear_arith)
        requires
            0 <= f * big <= exact * one,
    ;
    assert((w * one) * (big * big) <= (f * f) * (big * big)) by (nonlinear_arith)
        requires
            w * one <= f * f,
            0 < big,
    ;
    assert((f * f) * (big * big) == (f * big) * (f * big)) by (nonlinear_arith);
    assert((exact * one) * (exact * one) == ((exact * exact) * one) * one) by (nonlinear_arith);
    assert((w * one) * (big * big) == (w * (big * big)) * one) by (nonlinear_arith);
    assert(w * (big * big) <= (exact * exact) * one) by (nonlinear_arith)
        requires
            (w * (big * big)) * one <= ((exact * exact) * one) * one,
            0 < one,
    ;
}

/// The squaring step of `lemma_fx_pow_hi_exact`: from `f / one >= exact / big`
/// and `w / one >= (f / one)^2` to `w / one >= (exact / big)^2`.
proof fn lemma_square_hi(w: int, f: int, big: int, exact: int, one: int)
    requires
        w * one >= f * f,
        f * big >= exact * one,
        0 <= exact,
        0 < big,
        0 < one,
    ensures
        w * (big * big) >= (exact * exact) * one,
{
    assert((f * big) * (f * big) >= (exact * one) * (exact * one)) by (nonlinear_arith)
        requires
            f * big >= exact * one >= 0,
    ;
    assert((w * one) * (big * big) >= (f * f) * (big * big)) by (nonlinear_arith)
        requires
            w * one >= f * f,
            0 < big,
    ;
    assert((f * f) * (big * big) == (f * big) * (f * big)) by (nonlinear_arith);
    assert((exact * one) * (exact * one) == ((exact * exact) * one) * one) by (nonlinear_arith);
    assert((w * one) * (big * big) == (w * (big * big)) * one) by (nonlinear_arith);
    assert(w * (big * big) >= (exact * exact) * one) by (nonlinear_arith)
        requires
            (w * (big * big)) * one >= ((exact * exact) * one) * one,
            0 < one,
    ;
}

/// Searches downwards from `r` for the root of `v` from below.
proof fn lemma_root_lo_search(v: int, n: nat, r: int)
    requires
        0 <= v,
        n >= 1,
        0 <= r <= ONE,
        r < ONE ==> v < fx_pow_hi(r + 1, n),
    ensures
        exists|s: int| is_root_lo(s, v, n),
    decreases r,
{
    if fx_pow_hi(r, n) <= v {
        assert(is_root_lo(r, v, n));
    } else {
        if r == 0 {
            lemma_fx_pow_of_zero(n);
        }
        lemma_root_lo_search(v, n, r - 1);
    }
}

/// Searches upwards from `r` for the root of `v` from above.
proof fn lemma_root_hi_search(v: int, n: nat, r: int)
    requires
        v <= ONE,
        0 <= r <= ONE,
        r > 0 ==> fx_pow_lo(r - 1, n) < v,
    ensures
        exists|s: int| is_root_hi(s, v, n),
    decreases ONE - r,
{
    if v <= fx_pow_lo(r, n) {
        assert(is_root_hi(r, v, n));
    } else {
        if r == ONE {
            lemma_fx_pow_of_one(n);
        }
        lemma_root_hi_search(v, n, r + 1);
    }
}

/// Every number from 0 on has a root from below, and only one; its exact
/// power is at most the number.
pub proof fn lemma_fx_root_lo(v: int, n: nat)
    requires
        0 <= v,
        n >= 1,
    ensures
        is_root_lo(fx_root_lo(v, n), v, n),
        forall|r: int| is_root_lo(r, v, n) ==> r == fx_root_lo(v, n),
        pow_at_most(fx_root_lo(v, n), n, v),
{
    lemma_root_lo_search(v, n, ONE as int);
    let s = fx_root_lo(v, n);
    assert forall|r: int| is_root_lo(r, v, n) implies r == s by {
        if r < s {
            lemma_fx_pow_monotone(r + 1, s, n);
        } else if s < r {
            lemma_fx_pow_monotone(s + 1, r, n);
        }
    }
    lemma_fx_pow_hi_exact(s, n);
    lemma_pow_positive(ONE as int, n);
    assert(fx_pow_hi(s, n) * pow(ONE as int, n) <= v * pow(ONE as int, n)) by (nonlinear_arith)
        requires
            fx_pow_hi(s, n) <= v,
            0 < pow(ONE as int, n),
    ;
}

/// Every number up to 1 has a root from above, and only one; its exact power
/// is at least the number.
pub proof fn lemma_fx_root_hi(v: int, n: nat)
    requires
        v <= ONE,
    ensures
        is_root_hi(fx_root_hi(v, n), v, n),
        forall|r: int| is_root_hi(r, v, n) ==> r == fx_root_hi(v, n),
        pow_at_least(fx_root_hi(v, n), n, v),
{
    lemma_root_hi_search(v, n, 0);
    let s = fx_root_hi(v, n);
    assert forall|r: int| is_root_hi(r, v, n) implies r == s by {
        if r < s {
            lemma_fx_pow_monotone(r, s - 1, n);
        } else if s < r {
            lemma_fx_pow_monotone(s, r - 1, n);
        }
    }
    lemma_fx_pow_lo_exact(s, n);
    lemma_pow_positive(ONE as int, n);
    assert(fx_pow_lo(s, n) * pow(ONE as int, n) >= v * pow(ONE as int, n)) by (nonlinear_arith)
        requires
            fx_pow_lo(s, n) >= v,
            0 < pow(ONE as int, n),
    ;
}

/// A larger number has no smaller root, from below or from above.
pub proof fn lemma_fx_root_monotone(v: int, w: int, n: nat)
    requires
        0 <= v <= w <= ONE,
        n >= 1,
    ensures
        0 <= fx_root_lo(v, n) <= fx_root_lo(w, n) <= ONE,
        0 <= fx_root_hi(v, n) <= fx_root_hi(w, n) <= ONE,
{
    lemma_fx_root_lo(v, n);
    lemma_fx_root_lo(w, n);
    let r = fx_root_lo(v, n);
    let s = fx_root_lo(w, n);
    if s < r {
        lemma_fx_pow_monotone(s + 1, r, n);
    }
    lemma_fx_root_hi(v, n);
    lemma_fx_root_hi(w, n);
    let t = fx_root_hi(v, n);
    let u = fx_root_hi(w, n);
    if u < t {
        lemma_fx_pow_monotone(u, t - 1, n);
    }
}

/// A fractional power of a number of the unit interval lies in it, and a
/// larger base gives no smaller power.
pub proof fn lemma_fx_pow_frac_monotone(v: int, w: int, p: nat, q: nat)
    requires
        0 <= v <= w <= ONE,
        q >= 1,
    ensures
        0 <= fx_pow_frac_lo(v, p, q) <= fx_pow_frac_lo(w, p, q) <= ONE,
        0 <= fx_pow_frac_hi(v, p, q) <= fx_pow_frac_hi(w, p, q) <= ONE,
{
    lemma_fx_root_monotone(v, w, q);
    lemma_fx_pow_monotone(fx_root_lo(v, q), fx_root_lo(w, q), p);
    lemma_fx_pow_monotone(fx_root_hi(v, q), fx_root_hi(w, q), p);
}

/// Every fractional power of 0 is 0 and every fractional power of 1 is 1,
/// from below and from above.
pub proof fn lemma_fx_pow_frac_ends(p: nat, q: nat)
    requires
        p >= 1,
        q >= 1,
    ensures
        fx_pow_frac_lo(0, p, q) == 0,
        fx_pow_frac_hi(0, p, q) == 0,
        fx_pow_frac_lo(ONE as int, p, q) == ONE,
        fx_pow_frac_hi(ONE as int, p, q) == ONE,
{
    lemma_fx_pow_of_zero(q);
    lemma_fx_pow_of_zero(p);
    lemma_fx_pow_of_one(q);
    lemma_fx_pow_of_one(p);
    lemma_fx_root_lo(0, q);
    lemma_fx_root_hi(0, q);
    lemma_fx_root_lo(ONE as int, q);
    lemma_fx_root_hi(ONE as int, q);
    assert(is_root_hi(0, 0, q));
    assert(is_root_lo(ONE as int, ONE as int, q));
    let r = fx_root_lo(0, q);
    if r > 0 {
        lemma_fx_pow_positive(r, q);
    }
    let s = fx_root_hi(ONE as int, q);
    if s < ONE {
        lemma_fx_pow_shrinks(s, q);
    }
}

/// Rounded up, a power of a number above 0 is above 0.
pub proof fn lemma_fx_pow_positive(x: int, n: nat)
    requires
        0 < x <= ONE,
    ensures
        0 < fx_pow_hi(x, n),
    decreases n,
{
    if n == 0 {
    } else if n % 2 == 0 {
        lemma_fx_pow_positive(x, n / 2);
        let half = fx_pow_hi(x, n / 2);
        assert(0 < half * half) by (nonlinear_arith)
            requires
                0 < half,
        ;
    } else {
        lemma_fx_pow_positive(x, (n - 1) as nat);
        let rest = fx_pow_hi(x, (n - 1) as nat);
        assert(0 < rest * x) by (nonlinear_arith)
            requires
                0 < rest,
                0 < x,
        ;
    }
}

/// The product of `a` and `b`, rounded down.
pub(crate) fn mul_lo(a: u128, b: u128) -> (c: u128)
    requires
        a <= ONE,
        b <= ONE,
    ensures
        c == fx_mul_lo(a as int, b as int),
        c <= ONE,
{
    proof {
        lemma_fx_mul(a as int, b as int, ONE as int, ONE as int);
        assert(a * b <= (ONE as int) * (ONE as int)) by (nonlinear_arith)
            requires
                0 <= a <= ONE,
                0 <= b <= ONE,
        ;
    }
    a * b / ONE
}

/// The product of `a` and `b`, rounded up.
pub(crate) fn mul_hi(a: u128, b: u128) -> (c: u128)
    requires
        a <= ONE,
        b <= ONE,
    ensures
        c == fx_mul_hi(a as int, b as int),
        c <= ONE,
{
    proof {
        lemma_fx_mul(a as int, b as int, ONE as int, ONE as int);
        assert(a * b <= (ONE as int) * (ONE as int)) by (nonlinear_arith)
            requires
                0 <= a <= ONE,
                0 <= b <= ONE,
        ;
    }
    (a * b + (ONE - 1)) / ONE
}

/// `x` to the power `n`, rounded down.
pub(crate) fn pow_lo(x: u128, n: u32) -> (y: u128)
    requires
        x <= ONE,
    ensures
        y == fx_pow_lo(x as int, n as nat),
        y <= ONE,
    decreases n,
{
    if n == 0 {
        ONE
    } else if n % 2 == 0 {
        let half = pow_lo(x, n / 2);
        mul_lo(half, half)
    } else {
        mul_lo(pow_lo(x, n - 1), x)
    }
}

/// `x` to the power `n`, rounded up.
pub(crate) fn pow_hi(x: u128, n: u32) -> (y: u128)
    requires
        x <= ONE,
    ensures
        y == fx_pow_hi(x as int, n as nat),
        y <= ONE,
    decreases n,
{
    if n == 0 {
        ONE
    } else if n % 2 == 0 {
        let half = pow_hi(x, n / 2);
        mul_hi(half, half)
    } else {
        mul_hi(pow_hi(x, n - 1), x)
    }
}

/// The `n`-th root of `v` from below, found by bisection.
pub(crate) fn root_lo(v: u128, n: u32) -> (r: u128)
    requires
        n >= 1,
    ensures
        r == fx_root_lo(v as int, n as nat),
        r <= ONE,
{
    proof {
        lemma_fx_pow_of_zero(n as nat);
        lemma_fx_root_lo(v as int, n as nat);
    }
    let mut low: u128 = 0;
    let mut high: u128 = ONE + 1;
    while high - low > 1
        invariant
            low < high <= ONE + 1,
            fx_pow_hi(low as int, n as nat) <= v,
            high <= ONE ==> v < fx_pow_hi(high as int, n as nat),
        decreases high - low,
    {
        let mid: u128 = low + (high - low) / 2;
        if pow_hi(mid, n) <= v {
            low = mid;
        } else {
            high = mid;
        }
    }
    assert(is_root_lo(low as int, v as int, n as nat));
    low
}

/// The `n`-th root of `v` from above, found by bisection.
pub(crate) fn root_hi(v: u128, n: u32) -> (r: u128)
    requires
        v <= ONE,
        n >= 1,
    ensures
        r == fx_root_hi(v as int, n as nat),
        r <= ONE,
{
    proof {
        lemma_fx_pow_of_zero(n as nat);
        lemma_fx_pow_of_one(n as nat);
        lemma_fx_root_hi(v as int, n as nat);
    }
    if v == 0 {
        assert(is_root_hi(0, 0, n as nat));
        return 0;
    }
    let mut low: u128 = 0;
    let mut high: u128 = ONE;
    while high - low > 1
        invariant
            low < high <= ONE,
            fx_pow_lo(low as int, n as nat) < v,
            v <= fx_pow_lo(high as int, n as nat),
        decreases high - low,
    {
        let mid: u128 = low + (high - low) / 2;
        if pow_lo(mid, n) < v {
            low = mid;
        } else {
            high = mid;
        }
    }
    assert(is_root_hi(high as int, v as int, n as nat));
    high
}

/// `v` to the power `p / q`, from below.
pub(crate) fn pow_frac_lo(v: u128, p: u32, q: u32) -> (y: u128)
    requires
        q >= 1,
    ensures
        y == fx_pow_frac_lo(v as int, p as nat, q as nat),
        y <= ONE,
{
    pow_lo(root_lo(v, q), p)
}

/// `v` to the power `p / q`, from above.
pub(crate) fn pow_frac_hi(v: u128, p: u32, q: u32) -> (y: u128)
    requires
        v <= ONE,
        q >= 1,
    ensures
        y == fx_pow_frac_hi(v as int, p as nat, q as nat),
        y <= ONE,
{
    pow_hi(root_hi(v, q), p)
}

} // verus!
