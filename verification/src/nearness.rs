//! How near rounded results are to exact ones.
use vstd::arithmetic::div_mod::*;
use vstd::arithmetic::mul::*;
use vstd::arithmetic::power2::*;
use vstd::prelude::*;

use crate::binary64;
use crate::rounding;

verus! {

/// A length far below that of a degree or a channel, which rounding does not exceed.
pub open spec fn hair() -> int {
    pow2(1036) as int
}

/// The absolute value.
pub open spec fn size(v: int) -> int {
    if v < 0 {
        -v
    } else {
        v
    }
}

/// There are very many hairs in one.
pub proof fn hair_is_small()
    ensures
        hair() == 4 * pow2(1034),
        pow2(1034) > 0,
        binary64::one() == 0x40_0000_0000 * hair(),
        pow2(1086) == 0x4_0000_0000_0000 * hair(),
        pow2(1086) == pow2(52) * pow2(1034),
        pow2(1086) == 4096 * binary64::one(),
        pow2(52) == 0x10_0000_0000_0000,
{
    lemma2_to64();
    lemma2_to64_rest();
    lemma_pow2_pos(1034);
    lemma_pow2_adds(2, 1034);
    lemma_pow2_adds(38, 1036);
    lemma_pow2_adds(50, 1036);
    lemma_pow2_adds(52, 1034);
    lemma_pow2_adds(12, 1074);
}

/// A rounded multiple is at most half a unit off.
proof fn half_even_error(n: nat, d: nat)
    requires
        d > 0,
    ensures
        2 * rounding::apart((rounding::half_even(n, d) * d) as int, n as int) <= d,
{
    let (a, r) = (n as int / d as int, n as int % d as int);
    lemma_fundamental_div_mod(n as int, d as int);
    lemma_mul_is_commutative(d as int, a);
    assert((a + 1) * d == a * d + d) by (nonlinear_arith);
}

/// The error of rounding `n * 2^-k`: at most one part in `2^52`, or the smallest number.
proof fn nearest_error(n: nat, k: nat)
    ensures
        pow2(52) * rounding::apart((rounding::nearest(n, -k) * pow2(k)) as int, n as int) <= n
            + pow2(52) * pow2(k),
{
    let q = rounding::spacing(n, -k);
    let (unit, scale, whole) = (pow2(q), pow2(k), pow2(q + k));
    lemma_pow2_adds(q, k);
    lemma_pow2_pos(q + k);
    lemma_pow2_pos(52);
    lemma_pow2_pos(k);
    let h = rounding::half_even(n, whole);
    assert((h * unit) * scale == h * whole) by (nonlinear_arith)
        requires
            whole == unit * scale,
    ;
    half_even_error(n, whole);
    let off = rounding::apart((h * whole) as int, n as int);
    if q == 0 {
        lemma2_to64();
        assert(pow2(52) * off <= pow2(52) * scale) by (nonlinear_arith)
            requires
                0 <= off <= scale,
        ;
    } else {
        rounding::bit_length_bounds(n);
        lemma_pow2_adds(52, q + k);
        assert(pow2(52) * off <= pow2(52) * whole) by (nonlinear_arith)
            requires
                0 <= off <= whole,
        ;
        assert(pow2(52) * scale >= 0) by (nonlinear_arith)
            requires
                scale >= 0,
        ;
    }
}

/// The error of rounding `v * 2^-k`: at most one part in `2^52`, or the smallest number.
pub proof fn rounded_error(v: int, k: nat)
    ensures
        pow2(52) * rounding::apart(binary64::rounded_at(v, -k) * pow2(k), v) <= size(v) + pow2(52)
            * pow2(k),
{
    nearest_error(size(v) as nat, k);
    let r = rounding::nearest(size(v) as nat, -k) as int;
    assert((-r) * pow2(k) == -(r * pow2(k))) by (nonlinear_arith);
}

/// The error of a rounded quotient: at most one part in `2^52`, or the smallest number.
pub proof fn quotient_error(v: int, d: int)
    requires
        d > 0,
    ensures
        pow2(52) * rounding::apart(binary64::quotient_of(v, d) * d, v) <= size(v) + pow2(52) * d,
{
    let n = size(v) as nat;
    let m = d as nat;
    let whole = n / m;
    let q = rounding::spacing(whole, 0);
    let one = pow2(q);
    let unit = m * one;
    lemma_pow2_pos(q);
    lemma_pow2_pos(52);
    assert(unit > 0) by (nonlinear_arith)
        requires
            unit == m * one,
            m > 0,
            one > 0,
    ;
    let h = rounding::half_even(n, unit);
    assert((h * one) * m == h * unit) by (nonlinear_arith)
        requires
            unit == m * one,
    ;
    half_even_error(n, unit);
    let r = (h * one) as int;
    assert((-r) * d == -(r * d)) by (nonlinear_arith);
    let off = rounding::apart((h * unit) as int, n as int);
    assert(r * d == h * unit);
    if q == 0 {
        lemma2_to64();
        assert(pow2(52) * off <= pow2(52) * d) by (nonlinear_arith)
            requires
                0 <= off <= d,
        ;
    } else {
        rounding::bit_length_bounds(whole);
        lemma_pow2_adds(52, q);
        lemma_fundamental_div_mod(n as int, d);
        lemma_mod_bound(n as int, d);
        assert(pow2(52) * off <= pow2(52) * unit) by (nonlinear_arith)
            requires
                0 <= off <= unit,
        ;
        assert(pow2(52) * unit <= d * whole) by (nonlinear_arith)
            requires
                pow2(52) * one <= whole,
                unit == d * one,
                d > 0,
        ;
        assert(pow2(52) * d >= 0) by (nonlinear_arith)
            requires
                d >= 0,
        ;
    }
}

/// Rounding moves an ordinary number by less than a hair.
pub proof fn rounded_near(v: int)
    requires
        size(v) <= pow2(1086),
    ensures
        rounding::apart(binary64::rounded(v), v) <= hair(),
{
    hair_is_small();
    lemma2_to64();
    rounded_error(v, 0);
    assert(binary64::rounded(v) * 1 == binary64::rounded(v));
}

/// Rounding moves an ordinary product by less than a hair.
pub proof fn product_near(v: int)
    requires
        size(v) <= pow2(1086) * binary64::one(),
    ensures
        rounding::apart(binary64::rounded_at(v, -1074) * binary64::one(), v) <= hair()
            * binary64::one(),
{
    hair_is_small();
    rounded_error(v, 1074);
    let (u, x) = (binary64::one() as int, pow2(1034) as int);
    let y = x * u;
    assert(pow2(1086) * u == pow2(52) * y && hair() * u == 4 * y && y >= u) by (nonlinear_arith)
        requires
            pow2(1086) == pow2(52) * x,
            hair() == 4 * x,
            y == x * u,
            x >= 1,
            u >= 0,
    ;
}

/// Rounding moves an ordinary quotient by less than a hair.
pub proof fn quotient_near(v: int, d: int)
    requires
        size(v) <= pow2(1086),
        0 < d <= 255,
    ensures
        rounding::apart(binary64::quotient_of(v, d) * d, v) <= hair(),
{
    hair_is_small();
    quotient_error(v, d);
    lemma_pow2_strictly_increases(8, 1034);
    lemma2_to64();
}

} // verus!
