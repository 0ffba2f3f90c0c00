//! Double precision numbers in terms of their bits, and where rounding has two nearest numbers to
//! choose from.
use vstd::arithmetic::div_mod::*;
use vstd::arithmetic::power2::*;
use vstd::prelude::*;

use crate::binary64;
use crate::binary64::Binary64;
use crate::rounding;

verus! {

/// What the bits of a double precision number stand for: a sign bit, eleven bits of exponent and
/// 52 of fraction. Below the lowest exponent there is no leading one; the highest exponent is that
/// of the infinities, whose fraction is zero, and of what is not a number.
pub proof fn bits_encode_numbers(x: Binary64)
    ensures
        ({
            let sign = x.bits as int / 0x8000_0000_0000_0000;
            let exponent = (x.bits as int / 0x10_0000_0000_0000) % 2048;
            let fraction = x.bits as int % 0x10_0000_0000_0000;
            let size = if exponent == 0 {
                fraction
            } else {
                (fraction + 0x10_0000_0000_0000) * pow2((exponent - 1) as nat)
            };
            &&& x.value() == if sign == 0 {
                size
            } else {
                -size
            }
            &&& x.absolute() == size
            &&& x.negative() <==> sign == 1
            &&& x.magnitude() == exponent * 0x10_0000_0000_0000 + fraction
            &&& x.key() == if sign == 0 {
                x.magnitude()
            } else {
                -x.magnitude()
            }
            &&& x.finite() <==> exponent < 2047
            &&& x.number() <==> exponent < 2047 || fraction == 0
        }),
{
    lemma2_to64();
    let (bits, step) = (x.bits as int, 0x10_0000_0000_0000int);
    let m = x.magnitude();
    let e = m / step;
    lemma_fundamental_div_mod(m, step);
    lemma_mod_bound(m, step);
    assert(m * 1 == m);
    if bits >= 0x8000_0000_0000_0000 {
        assert(bits == step * (e + 2048) + m % step);
        lemma_fundamental_div_mod_converse(bits, step, e + 2048, m % step);
    }
    assert(0 <= e < 2048);
}

/// The smaller of two neighbors or the greater, whichever is even.
pub open spec fn even_of(m: int) -> int {
    if m % 2 == 0 {
        m
    } else {
        m + 1
    }
}

/// A number midway between two neighbors is rounded to the one with the even significand.
pub proof fn midway_is_rounded_to_even(m: nat, e: int)
    requires
        m < 0x20_0000_0000_0000,
        e == -1 || (e >= -1 && m >= 0x10_0000_0000_0000),
    ensures
        binary64::rounded_at((2 * m + 1) as int, e) == even_of(m as int) * pow2((e + 1) as nat),
        binary64::rounded_at(-(2 * m + 1), e) == -(even_of(m as int) * pow2((e + 1) as nat)),
{
    lemma2_to64();
    lemma2_to64_rest();
    lemma_pow2_adds(1, 53);
    let n = (2 * m + 1) as nat;
    if m >= 0x10_0000_0000_0000 {
        rounding::bit_length_is(n, 54);
    } else {
        binary64::digits_below(n, 53);
    }
    assert(rounding::spacing(n, e) == e + 1);
    lemma_fundamental_div_mod_converse(n as int, 2, m as int, 1);
    assert(rounding::half_even(n, 2) == even_of(m as int));
}

/// A quotient midway between two neighbors is rounded to the one with the even significand.
pub proof fn midway_quotient_is_rounded_to_even(m: nat, s: nat, d: nat)
    requires
        d > 0,
        s >= 1,
        0x10_0000_0000_0000 <= m < 0x20_0000_0000_0000,
    ensures
        rounding::nearest_quotient(((2 * m + 1) * pow2((s - 1) as nat)) * d, d) == even_of(m as int)
            * pow2(s),
{
    lemma2_to64();
    lemma2_to64_rest();
    lemma_pow2_adds(1, 53);
    let n = (2 * m + 1) as nat;
    let p = pow2((s - 1) as nat);
    lemma_pow2_pos((s - 1) as nat);
    lemma_pow2_adds(1, (s - 1) as nat);
    rounding::bit_length_is(n, 54);
    rounding::bit_length_scaled(n, (s - 1) as nat);
    lemma_div_by_multiple((n * p) as int, d as int);
    assert(((n * p) * d) / d == n * p);
    assert(rounding::spacing(n * p, 0) == s);
    let c = p * d;
    assert((n * p) * d == n * c && d * pow2(s) == 2 * c && c > 0) by (nonlinear_arith)
        requires
            c == p * d,
            pow2(s) == 2 * p,
            p > 0,
            d > 0,
    ;
    rounding::half_even_scaled(n, 2, c);
    lemma_fundamental_div_mod_converse(n as int, 2, m as int, 1);
    assert(rounding::half_even(n, 2) == even_of(m as int));
}

} // verus!
