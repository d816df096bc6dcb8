//! Integer arithmetic helpers for the fixed-point simulation:
//! saturating sums, sign-symmetric (truncating and away-from-zero)
//! division, and an integer square root.

use vstd::prelude::*;

verus! {

/// `x` clipped to the range of `i64`.
pub open spec fn sat64(x: int) -> int {
    if x > i64::MAX as int {
        i64::MAX as int
    } else if x < i64::MIN as int {
        i64::MIN as int
    } else {
        x
    }
}

/// `a + b`, saturating at the bounds of `i64`.
pub fn sat_add64(a: i64, b: i64) -> (r: i64)
    ensures
        r as int == sat64(a + b),
{
    let s: i128 = a as i128 + b as i128;
    if s > i64::MAX as i128 {
        i64::MAX
    } else if s < i64::MIN as i128 {
        i64::MIN
    } else {
        s as i64
    }
}

/// `a - b`, saturating at the bounds of `i64`.
pub fn sat_sub64(a: i64, b: i64) -> (r: i64)
    ensures
        r as int == sat64(a - b),
{
    let s: i128 = a as i128 - b as i128;
    if s > i64::MAX as i128 {
        i64::MAX
    } else if s < i64::MIN as i128 {
        i64::MIN
    } else {
        s as i64
    }
}

/// Quotient of `a` by `d`, rounded toward zero, for `d > 0`.
pub open spec fn div_trunc(a: int, d: int) -> int {
    if a >= 0 {
        a / d
    } else {
        -((-a) / d)
    }
}

/// Quotient of `a` by `d`, rounded away from zero, for `d > 0`.
pub open spec fn div_away(a: int, d: int) -> int {
    if a >= 0 {
        (a + d - 1) / d
    } else {
        -((-a + d - 1) / d)
    }
}

/// Rounding toward zero is symmetric under negation of the dividend.
pub proof fn lemma_div_trunc_neg(a: int, d: int)
    requires
        d >= 1,
    ensures
        div_trunc(-a, d) == -div_trunc(a, d),
{
    if a == 0 {
        vstd::arithmetic::div_mod::lemma_div_of0(d);
    } else if a > 0 {
        assert(div_trunc(-a, d) == -(a / d));
    } else {
        assert(div_trunc(-a, d) == (-a) / d);
    }
}

/// For a nonnegative dividend and positive divisor, the truncated
/// quotient `q` satisfies `q * d <= a < (q + 1) * d`.
pub proof fn lemma_div_trunc_nonneg(a: int, d: int)
    requires
        a >= 0,
        d >= 1,
    ensures
        div_trunc(a, d) >= 0,
        div_trunc(a, d) <= a,
        div_trunc(a, d) * d <= a,
        a < (div_trunc(a, d) + 1) * d,
{
    let q = a / d;
    let rem = a % d;
    vstd::arithmetic::div_mod::lemma_fundamental_div_mod(a, d);
    vstd::arithmetic::div_mod::lemma_div_is_ordered(0, a, d);
    assert(q * d <= a && a < (q + 1) * d && q <= a) by (nonlinear_arith)
        requires
            a == d * q + rem,
            0 <= rem < d,
            1 <= d,
            0 <= q,
    ;
}

/// For a nonnegative dividend and positive divisor, the away-rounded
/// quotient `q` satisfies `(q - 1) * d < a <= q * d`.
pub proof fn lemma_div_away_nonneg(a: int, d: int)
    requires
        a >= 0,
        d >= 1,
    ensures
        div_away(a, d) >= 0,
        div_away(a, d) * d >= a,
        (div_away(a, d) - 1) * d < a,
{
    let b = a + d - 1;
    let q = b / d;
    let rem = b % d;
    vstd::arithmetic::div_mod::lemma_fundamental_div_mod(b, d);
    vstd::arithmetic::div_mod::lemma_div_is_ordered(0, b, d);
    assert(q * d >= a && (q - 1) * d < a) by (nonlinear_arith)
        requires
            b == d * q + rem,
            0 <= rem < d,
            b == a + d - 1,
    ;
}

/// `a / d` rounded toward zero, for `i128` values.
pub fn div_trunc128(a: i128, d: i128) -> (r: i128)
    requires
        d >= 1,
        a > i128::MIN,
    ensures
        r as int == div_trunc(a as int, d as int),
{
    if a >= 0 {
        let q: u128 = (a as u128) / (d as u128);
        proof {
            vstd::arithmetic::div_mod::lemma_div_is_ordered(0, a as int, d as int);
            vstd::arithmetic::div_mod::lemma_div_is_ordered_by_denominator(a as int, 1, d as int);
        }
        q as i128
    } else {
        let n: i128 = -a;
        let q: u128 = (n as u128) / (d as u128);
        proof {
            vstd::arithmetic::div_mod::lemma_div_is_ordered(0, n as int, d as int);
            vstd::arithmetic::div_mod::lemma_div_is_ordered_by_denominator(n as int, 1, d as int);
        }
        -(q as i128)
    }
}

/// `a / d` rounded away from zero, for dividends and divisors that are
/// small enough for the shifted sum not to overflow.
pub fn div_away128(a: i128, d: i128) -> (r: i128)
    requires
        d >= 1,
        -1000000000 <= a <= 1000000000,
        d <= 1000000000,
    ensures
        r as int == div_away(a as int, d as int),
{
    if a >= 0 {
        let b: i128 = a + d - 1;
        let q: u128 = (b as u128) / (d as u128);
        proof {
            vstd::arithmetic::div_mod::lemma_div_is_ordered(0, b as int, d as int);
            vstd::arithmetic::div_mod::lemma_div_is_ordered_by_denominator(b as int, 1, d as int);
        }
        q as i128
    } else {
        let b: i128 = -a + d - 1;
        let q: u128 = (b as u128) / (d as u128);
        proof {
            vstd::arithmetic::div_mod::lemma_div_is_ordered(0, b as int, d as int);
            vstd::arithmetic::div_mod::lemma_div_is_ordered_by_denominator(b as int, 1, d as int);
        }
        -(q as i128)
    }
}

/// Rounding away from zero is symmetric under negation of the dividend.
pub proof fn lemma_div_away_neg(a: int, d: int)
    requires
        d >= 1,
    ensures
        div_away(-a, d) == -div_away(a, d),
{
    if a == 0 {
        vstd::arithmetic::div_mod::lemma_basic_div(d - 1, d);
    } else if a > 0 {
        assert(div_away(-a, d) == -((a + d - 1) / d));
    } else {
        assert(div_away(-a, d) == (-a + d - 1) / d);
    }
}

/// Scaling a component `c` with `|c| <= s` by `t / s`, rounding away
/// from zero, keeps its magnitude at most `t` and its square at least
/// `(t / s)^2` times the original square.
pub proof fn lemma_scale_away(c: int, s: int, t: int)
    requires
        1 <= s,
        1 <= t,
        c * c <= s * s,
    ensures
        ({
            let q = div_away(c * t, s);
            q * q <= t * t && s * s * (q * q) >= t * t * (c * c)
        }),
{
    let a = if c >= 0 { c } else { -c };
    let q = div_away(c * t, s);
    let q0 = div_away(a * t, s);
    assert(a * t == if c >= 0 { c * t } else { -(c * t) }) by (nonlinear_arith)
        requires
            a == (if c >= 0 { c } else { -c }),
    ;
    if c < 0 {
        lemma_div_away_neg(a * t, s);
    }
    assert(q * q == q0 * q0) by (nonlinear_arith)
        requires
            q == q0 || q == -q0,
    ;
    assert(a * t >= 0 && a * a == c * c && a <= s) by (nonlinear_arith)
        requires
            a == (if c >= 0 { c } else { -c }),
            c * c <= s * s,
            1 <= s,
            1 <= t,
    ;
    lemma_div_away_nonneg(a * t, s);
    assert(q0 * q0 <= t * t && s * s * (q0 * q0) >= t * t * (a * a)) by (nonlinear_arith)
        requires
            0 <= q0,
            q0 * s >= a * t,
            (q0 - 1) * s < a * t,
            0 <= a <= s,
            1 <= s,
            1 <= t,
    ;
}

/// Scaling a component `c` with `|c| <= s` by `t / s`, rounding toward
/// zero, keeps its magnitude at most `t` and its square at most
/// `(t / s)^2` times the original square.
pub proof fn lemma_scale_trunc(c: int, s: int, t: int)
    requires
        1 <= s,
        1 <= t,
        c * c <= s * s,
    ensures
        ({
            let q = div_trunc(c * t, s);
            q * q <= t * t && s * s * (q * q) <= t * t * (c * c)
        }),
{
    let a = if c >= 0 { c } else { -c };
    let q = div_trunc(c * t, s);
    let q0 = div_trunc(a * t, s);
    assert(a * t == if c >= 0 { c * t } else { -(c * t) }) by (nonlinear_arith)
        requires
            a == (if c >= 0 { c } else { -c }),
    ;
    if c < 0 {
        lemma_div_trunc_neg(a * t, s);
        assert(div_trunc(-(a * t), s) == -q0);
    }
    assert(q * q == q0 * q0) by (nonlinear_arith)
        requires
            q == q0 || q == -q0,
    ;
    assert(a * t >= 0 && a * a == c * c && a <= s) by (nonlinear_arith)
        requires
            a == (if c >= 0 { c } else { -c }),
            c * c <= s * s,
            1 <= s,
            1 <= t,
    ;
    lemma_div_trunc_nonneg(a * t, s);
    assert(q0 * q0 <= t * t && s * s * (q0 * q0) <= t * t * (a * a)) by (nonlinear_arith)
        requires
            0 <= q0,
            q0 * s <= a * t,
            a * t < (q0 + 1) * s,
            0 <= a <= s,
            1 <= s,
            1 <= t,
    ;
}

/// The integer square root of `x`: the greatest `r` with `r * r <= x`.
/// Uniquely characterized by `r >= 0 && r * r <= x < (r + 1) * (r + 1)`.
pub open spec fn sqrt_floor(x: int) -> int {
    choose|r: int| 0 <= r && #[trigger] (r * r) <= x && x < (r + 1) * (r + 1)
}

/// If `a * a < (b + 1)^2` for a nonnegative `b`, then `|a| <= b`.
pub proof fn lemma_abs_le_of_sq_lt(a: int, b: int)
    requires
        0 <= b,
        a * a < (b + 1) * (b + 1),
    ensures
        -b <= a <= b,
        a * a <= b * b,
{
    if a > b {
        assert(a * a >= (b + 1) * (b + 1)) by (nonlinear_arith)
            requires
                a >= b + 1,
                b >= 0,
        ;
    }
    if a < -b {
        assert(a * a >= (b + 1) * (b + 1)) by (nonlinear_arith)
            requires
                a <= -(b + 1),
                b >= 0,
        ;
    }
    assert(a * a <= b * b) by (nonlinear_arith)
        requires
            -b <= a <= b,
            b >= 0,
    ;
}

/// A dividend whose magnitude is below the divisor yields zero.
pub proof fn lemma_div_trunc_small(a: int, d: int)
    requires
        d >= 1,
        -d < a < d,
    ensures
        div_trunc(a, d) == 0,
{
    if a >= 0 {
        vstd::arithmetic::div_mod::lemma_basic_div(a, d);
    } else {
        vstd::arithmetic::div_mod::lemma_basic_div(-a, d);
    }
}

/// The integer square root of `x`, rounded up: the least `r` with
/// `x <= r * r`.
pub open spec fn sqrt_ceil(x: int) -> int {
    if sqrt_floor(x) * sqrt_floor(x) == x {
        sqrt_floor(x)
    } else {
        sqrt_floor(x) + 1
    }
}

/// Any witness of the square-root characterization pins `sqrt_floor`.
pub proof fn lemma_sqrt_floor_is(x: int, s: int)
    requires
        0 <= s,
        s * s <= x,
        x < (s + 1) * (s + 1),
    ensures
        sqrt_floor(x) == s,
{
    let r = sqrt_floor(x);
    assert(0 <= r && r * r <= x && x < (r + 1) * (r + 1));
    assert(r == s) by (nonlinear_arith)
        requires
            0 <= r,
            r * r <= x,
            x < (r + 1) * (r + 1),
            0 <= s,
            s * s <= x,
            x < (s + 1) * (s + 1),
    ;
}

/// Binary-search integer square root over the full `u128` range.
pub fn isqrt(x: u128) -> (r: u64)
    ensures
        (r as int) * (r as int) <= x as int,
        x < (r + 1) * (r + 1),
        r as int == sqrt_floor(x as int),
{
    let mut lo: u128 = 0;
    let mut hi: u128 = 0x1_0000_0000_0000_0000;
    proof {
        assert((hi as int) * (hi as int) > u128::MAX as int) by (nonlinear_arith)
            requires
                hi == 0x1_0000_0000_0000_0000u128,
        ;
    }
    while lo + 1 < hi
        invariant
            lo < hi,
            hi <= 0x1_0000_0000_0000_0000,
            (lo as int) * (lo as int) <= x as int,
            (x as int) < (hi as int) * (hi as int),
        decreases hi - lo,
    {
        let mid: u128 = lo + (hi - lo) / 2;
        assert((mid as int) * (mid as int) < 0x1_0000_0000_0000_0000_0000_0000_0000_0000)
            by (nonlinear_arith)
            requires
                mid < 0x1_0000_0000_0000_0000,
        ;
        if mid * mid <= x {
            lo = mid;
        } else {
            hi = mid;
        }
    }
    proof {
        lemma_sqrt_floor_is(x as int, lo as int);
    }
    lo as u64
}

} // verus!
