//! Double precision numbers, carried by their bit pattern.
//!
//! Color spaces measure hue, chroma, tone and luminance in IEEE 754 double precision. This module
//! computes with such numbers on their encodings: it compares, adds, multiplies, divides and
//! rounds, and every contract is stated over the exact values that the encodings stand for.
use vstd::arithmetic::div_mod::*;
use vstd::arithmetic::mul::*;
use vstd::arithmetic::power2::*;
use vstd::bits::*;
use vstd::prelude::*;

use crate::rounding;

verus! {

/// The bit that makes an encoded number negative.
pub const SIGN_BIT: u64 = 0x8000_0000_0000_0000;

/// The distance between two encodings whose exponents differ by one.
pub const EXPONENT_STEP: u64 = 0x0010_0000_0000_0000;

/// The exponent field of the infinities and of what is not a number.
pub const EXPONENT_LIMIT: u64 = 2047;

/// A double precision number, as the 64 bits that encode it.
#[derive(Clone, Copy, Debug, PartialEq, Eq, Structural)]
pub struct Binary64 {
    pub bits: u64,
}

/// One, counted in the smallest positive double precision number.
pub open spec fn one() -> nat {
    pow2(1074)
}

/// The significand of a number without its sign, from the lower 63 bits of its encoding.
pub open spec fn significand_of(magnitude: int) -> int {
    if magnitude < EXPONENT_STEP {
        magnitude
    } else {
        magnitude % (EXPONENT_STEP as int) + EXPONENT_STEP
    }
}

/// The power of two by which the significand is scaled.
pub open spec fn scale_of(magnitude: int) -> nat {
    if magnitude < EXPONENT_STEP {
        0
    } else {
        (magnitude / (EXPONENT_STEP as int) - 1) as nat
    }
}

/// The absolute value that the lower 63 bits of an encoding stand for, counted in the smallest
/// positive number.
pub open spec fn absolute_of(magnitude: int) -> int {
    significand_of(magnitude) * pow2(scale_of(magnitude))
}

impl Binary64 {
    pub open spec fn negative(self) -> bool {
        self.bits >= SIGN_BIT
    }

    /// The encoding without its sign bit.
    pub open spec fn magnitude(self) -> int {
        if self.bits >= SIGN_BIT {
            self.bits - SIGN_BIT
        } else {
            self.bits as int
        }
    }

    pub open spec fn exponent(self) -> int {
        self.magnitude() / (EXPONENT_STEP as int)
    }

    /// The encoding stands for a number: not for an infinity, nor for none.
    pub open spec fn finite(self) -> bool {
        self.exponent() < EXPONENT_LIMIT
    }

    /// The encoding stands for a number or an infinity.
    pub open spec fn number(self) -> bool {
        self.magnitude() <= EXPONENT_LIMIT * EXPONENT_STEP
    }

    /// The absolute value, counted in the smallest positive number.
    pub open spec fn absolute(self) -> int {
        absolute_of(self.magnitude())
    }

    /// The value, counted in the smallest positive number: the number times `one()`.
    pub open spec fn value(self) -> int {
        if self.negative() {
            -self.absolute()
        } else {
            self.absolute()
        }
    }

    /// The integer by which encodings are ordered.
    pub open spec fn key(self) -> int {
        if self.negative() {
            -self.magnitude()
        } else {
            self.magnitude()
        }
    }
}

/// A greater encoding stands for a greater absolute value.
pub proof fn absolute_increases(a: int, b: int)
    requires
        0 <= a < b,
    ensures
        0 <= absolute_of(a) < absolute_of(b),
{
    let step: int = EXPONENT_STEP as int;
    lemma2_to64_rest();
    lemma_fundamental_div_mod(a, step);
    lemma_fundamental_div_mod(b, step);
    let (sa, sb) = (significand_of(a), significand_of(b));
    let (ea, eb) = (scale_of(a), scale_of(b));
    assert(absolute_of(a) == sa * pow2(ea));
    assert(absolute_of(b) == sb * pow2(eb));
    lemma_pow2_pos(ea);
    lemma_pow2_pos(eb);
    assert(0 <= sa < 2 * step);
    assert(0 <= sa * pow2(ea)) by (nonlinear_arith)
        requires
            0 <= sa,
            pow2(ea) > 0,
    ;
    assert(a / step <= b / step) by (nonlinear_arith)
        requires
            0 <= a < b,
            step > 0,
    ;
    if ea == eb && (a < step) == (b < step) {
        if a >= step {
            assert(a / step == b / step);
        }
        assert(sa < sb);
        assert(sa * pow2(ea) < sb * pow2(eb)) by (nonlinear_arith)
            requires
                sa < sb,
                pow2(ea) == pow2(eb),
                pow2(ea) > 0,
        ;
    } else {
        assert(b >= step);
        assert(sb >= step);
        if a < step {
            assert(pow2(ea) == 1) by {
                lemma2_to64();
            }
            assert(sa * pow2(ea) == a) by (nonlinear_arith)
                requires
                    sa == a,
                    pow2(ea) == 1,
            ;
            assert(sb * pow2(eb) >= step) by (nonlinear_arith)
                requires
                    sb >= step,
                    pow2(eb) >= 1,
                    step >= 0,
            ;
        } else {
            assert(ea + 1 <= eb);
            if ea + 1 < eb {
                lemma_pow2_strictly_increases((ea + 1) as nat, eb);
            }
            lemma_pow2_adds(1, ea);
            lemma2_to64();
            assert(pow2(eb) >= 2 * pow2(ea));
            assert(sa * pow2(ea) < sb * pow2(eb)) by (nonlinear_arith)
                requires
                    0 <= sa < 2 * step,
                    sb >= step,
                    pow2(eb) >= 2 * pow2(ea),
                    pow2(ea) > 0,
                    step > 0,
            ;
        }
    }
}

/// The integer keys order two numbers as their values do, and equal values have equal keys.
pub proof fn key_orders(a: Binary64, b: Binary64)
    ensures
        a.key() < b.key() <==> a.value() < b.value(),
        a.key() == b.key() <==> a.value() == b.value(),
{
    let (x, y) = (a.magnitude(), b.magnitude());
    assert(absolute_of(0) == 0) by (nonlinear_arith)
        requires
            absolute_of(0) == 0 * pow2(0),
    ;
    if x > 0 {
        absolute_increases(0, x);
    }
    if y > 0 {
        absolute_increases(0, y);
    }
    if x < y {
        absolute_increases(x, y);
    }
    if y < x {
        absolute_increases(y, x);
    }
}

/// Division of a significand that is scaled up by one power of two, by a higher power of two.
proof fn scaled_quotient(x: int, low: nat, high: nat)
    requires
        0 <= x,
        low <= high,
    ensures
        (x * pow2(low)) / (pow2(high) as int) == x / (pow2((high - low) as nat) as int),
{
    let d = (high - low) as nat;
    lemma_pow2_adds(low, d);
    lemma_pow2_pos(low);
    lemma_pow2_pos(d);
    lemma_mul_nonnegative(x, pow2(low) as int);
    lemma_div_denominator(x * pow2(low), pow2(low) as int, pow2(d) as int);
    lemma_div_by_multiple(x, pow2(low) as int);
}

impl Binary64 {
    /// The sign bit is set.
    fn is_negative(self) -> (r: bool)
        ensures
            r == self.negative(),
    {
        self.bits >= SIGN_BIT
    }

    /// The lower 63 bits.
    fn low_bits(self) -> (r: u64)
        ensures
            r == self.magnitude(),
            r < SIGN_BIT,
    {
        if self.bits >= SIGN_BIT {
            self.bits - SIGN_BIT
        } else {
            self.bits
        }
    }

    /// Whether the encoding stands for a number.
    pub fn is_finite(self) -> (r: bool)
        ensures
            r == self.finite(),
    {
        self.low_bits() / EXPONENT_STEP < EXPONENT_LIMIT
    }

    /// Whether the encoding stands for a number or an infinity.
    pub fn is_number(self) -> (r: bool)
        ensures
            r == self.number(),
    {
        self.low_bits() <= EXPONENT_LIMIT * EXPONENT_STEP
    }

    /// The integer by which numbers are ordered.
    pub fn order_key(self) -> (r: i64)
        ensures
            r == self.key(),
            r > i64::MIN,
    {
        let low: u64 = self.low_bits();
        if self.bits >= SIGN_BIT {
            -(low as i64)
        } else {
            low as i64
        }
    }

    /// Whether this number is at least the other.
    pub fn at_least(self, other: Binary64) -> (r: bool)
        ensures
            r == (self.value() >= other.value()),
    {
        proof {
            key_orders(self, other);
        }
        self.order_key() >= other.order_key()
    }

    /// The greater of two numbers.
    pub fn max(self, other: Binary64) -> (r: Binary64)
        ensures
            r == self || r == other,
            r.value() >= self.value(),
            r.value() >= other.value(),
    {
        if self.at_least(other) {
            self
        } else {
            other
        }
    }

    /// The smaller of two numbers.
    pub fn min(self, other: Binary64) -> (r: Binary64)
        ensures
            r == self || r == other,
            r.value() <= self.value(),
            r.value() <= other.value(),
    {
        if self.at_least(other) {
            other
        } else {
            self
        }
    }

    /// The whole number `n`.
    pub fn whole(n: u16) -> (r: Binary64)
        ensures
            r.finite(),
            r.value() == n * one(),
    {
        if n == 0 {
            assert(absolute_of(0) == 0) by (nonlinear_arith)
                requires
                    absolute_of(0) == 0 * pow2(0),
            ;
            assert(0 * one() == 0) by (nonlinear_arith);
            return Binary64 { bits: 0 };
        }
        let mut significand: u64 = n as u64;
        let mut doublings: u64 = 0;
        proof {
            lemma2_to64();
            lemma2_to64_rest();
        }
        while significand < EXPONENT_STEP
            invariant
                n > 0,
                pow2(52) == EXPONENT_STEP,
                significand == n * pow2(doublings as nat),
                0 < significand < 2 * EXPONENT_STEP,
                doublings <= 52,
            decreases 52 - doublings,
        {
            proof {
                lemma_pow2_adds(1, doublings as nat);
                lemma2_to64();
                let p = pow2(doublings as nat);
                assert(n * (2 * p) == 2 * (n * p)) by (nonlinear_arith);
                if doublings == 52 {
                    assert(n * pow2(52) >= pow2(52)) by (nonlinear_arith)
                        requires
                            n >= 1,
                            pow2(52) >= 0,
                    ;
                }
            }
            significand = significand * 2;
            doublings = doublings + 1;
        }
        let r = Binary64 { bits: (1074 - doublings) * EXPONENT_STEP + significand };
        proof {
            let step: int = EXPONENT_STEP as int;
            lemma_fundamental_div_mod_converse(
                r.bits as int,
                step,
                1075 - doublings,
                significand - step,
            );
            lemma_pow2_adds(doublings as nat, (1074 - doublings) as nat);
            let (p, q) = (pow2(doublings as nat), pow2((1074 - doublings) as nat));
            assert((n * p) * q == n * (p * q)) by (nonlinear_arith);
        }
        r
    }
}

/// A significand and the power of two that scales it, put back into one encoding.
pub proof fn absolute_of_parts(significand: int, scale: nat)
    requires
        0 <= significand <= 2 * EXPONENT_STEP,
        significand >= EXPONENT_STEP || scale == 0,
    ensures
        absolute_of(scale * EXPONENT_STEP + significand) == significand * pow2(scale),
{
    let step: int = EXPONENT_STEP as int;
    let m: int = scale * step + significand;
    lemma2_to64();
    if significand < step {
    } else if significand < 2 * step {
        lemma_fundamental_div_mod_converse(m, step, (scale + 1) as int, significand - step);
    } else {
        lemma_fundamental_div_mod_converse(m, step, (scale + 2) as int, 0);
        lemma_pow2_adds(1, scale);
        assert(step * (2 * pow2(scale)) == (2 * step) * pow2(scale)) by (nonlinear_arith);
    }
}

/// The number of binary digits of `n`.
fn digits(n: u128) -> (r: u32)
    ensures
        r == rounding::bit_length(n as nat),
        r <= 128,
{
    let mut rest: u128 = n;
    let mut r: u32 = 0;
    proof {
        lemma2_to64();
    }
    while rest > 0
        invariant
            rounding::bit_length(n as nat) == r + rounding::bit_length(rest as nat),
            r <= 128,
            rest as nat * pow2(r as nat) <= n,
        decreases rest,
    {
        proof {
            let (x, p) = (rest as nat, pow2(r as nat));
            lemma_pow2_adds(1, r as nat);
            lemma2_to64();
            assert((x / 2) * (2 * p) <= x * p) by (nonlinear_arith)
                requires
                    (x / 2) * 2 <= x,
            ;
            if r == 128 {
                lemma2_to64();
                lemma_pow2_adds(64, 64);
                assert(x * p >= p) by (nonlinear_arith)
                    requires
                        x >= 1,
                ;
            }
        }
        rest = rest / 2;
        r = r + 1;
    }
    r
}

/// Two to the power of `s`.
fn power_of_two(s: u32) -> (r: u128)
    requires
        s < 127,
    ensures
        r == pow2(s as nat),
        r > 0,
{
    let a: u64 = (s / 2) as u64;
    let b: u64 = s as u64 - a;
    proof {
        lemma2_to64();
        lemma2_to64_rest();
        lemma_u64_pow2_no_overflow(a as nat);
        lemma_u64_pow2_no_overflow(b as nat);
        lemma_u64_shl_is_mul(1, a);
        lemma_u64_shl_is_mul(1, b);
        lemma_pow2_adds(a as nat, b as nat);
        lemma_pow2_pos(s as nat);
        assert(pow2(a as nat) * pow2(b as nat) <= 0xffff_ffff_ffff_ffff * 0xffff_ffff_ffff_ffff)
            by (nonlinear_arith)
            requires
                pow2(a as nat) <= 0xffff_ffff_ffff_ffff,
                pow2(b as nat) <= 0xffff_ffff_ffff_ffff,
        ;
    }
    (1u64 << a) as u128 * (1u64 << b) as u128
}

/// The integer nearest to `n / 2^s`, ties to even, where it has at most 53 digits or is `2^53`.
fn round_quotient(n: u128, s: u32) -> (r: u64)
    requires
        n < pow2(125),
        s < 4100,
        rounding::bit_length(n as nat) <= 53 + s,
    ensures
        r == rounding::half_even(n as nat, pow2(s as nat)),
        r <= 2 * EXPONENT_STEP,
        rounding::bit_length(n as nat) == 53 + s ==> r >= EXPONENT_STEP,
{
    proof {
        lemma2_to64();
        lemma2_to64_rest();
        rounding::bit_length_bounds(n as nat);
        lemma_pow2_pos(s as nat);
    }
    if s >= 127 {
        proof {
            let d = pow2(s as nat);
            lemma_pow2_adds(1, 125);
            lemma_pow2_strictly_increases(126, s as nat);
            lemma_small_div_converse(n as int, d as int);
            lemma_small_mod(n as nat, d);
            lemma_basic_div(n as int, d as int);
            if rounding::bit_length(n as nat) == 53 + s {
                lemma_pow2_strictly_increases(125, (52 + s) as nat);
            }
        }
        return 0;
    }
    let d: u128 = power_of_two(s);
    let down: u128 = n / d;
    let rest: u128 = n % d;
    proof {
        lemma_pow2_adds(1, s as nat);
        lemma_pow2_adds(64, 64);
        lemma_pow2_adds(1, 127);
        lemma_pow2_strictly_increases(s as nat, 127);
        let b = rounding::bit_length(n as nat);
        if b < 53 + s {
            lemma_pow2_strictly_increases(b, (53 + s) as nat);
        }
        lemma_pow2_adds(53, s as nat);
        lemma_multiply_divide_lt(n as int, d as int, pow2(53) as int);
        if b == 53 + s {
            lemma_pow2_adds(52, s as nat);
            lemma_div_is_ordered((d * pow2(52)) as int, n as int, d as int);
            lemma_div_multiples_vanish(pow2(52) as int, d as int);
        }
    }
    if 2 * rest < d {
        down as u64
    } else if 2 * rest > d {
        (down + 1) as u64
    } else {
        (down + down % 2) as u64
    }
}

/// The encoding, without a sign, of the number nearest to `n * 2^e`.
fn encode_nearest(n: u128, e: i32) -> (m: u64)
    requires
        n < pow2(125),
        -4000 <= e <= 4000,
        rounding::bit_length(n as nat) + e <= 2097,
    ensures
        m < EXPONENT_LIMIT * EXPONENT_STEP,
        absolute_of(m as int) == rounding::nearest(n as nat, e as int),
{
    let len: u32 = digits(n);
    let q: i32 = if len as i32 + e <= 53 {
        0
    } else {
        len as i32 + e - 53
    };
    proof {
        rounding::bit_length_bounds(n as nat);
        lemma2_to64();
        lemma2_to64_rest();
        assert(q == rounding::spacing(n as nat, e as int));
    }
    if n == 0 {
        proof {
            let d = pow2((q - e) as nat);
            lemma_pow2_pos((q - e) as nat);
            lemma_small_mod(0, d);
            lemma_basic_div(0, d as int);
            assert(forall|x: nat| #[trigger] (0 * x) == 0) by (nonlinear_arith);
            assert(absolute_of(0) == 0 * pow2(0));
        }
        return 0;
    }
    let significand: u64 = if q < e {
        let up: u32 = (e - q) as u32;
        proof {
            // few digits: the shift brings the number to at most 53 of them
            assert(len + up <= 53);
            lemma_pow2_adds(len as nat, up as nat);
            lemma_pow2_pos(up as nat);
            assert(n * pow2(up as nat) < pow2(len as nat) * pow2(up as nat)) by (nonlinear_arith)
                requires
                    n < pow2(len as nat),
                    pow2(up as nat) > 0,
            ;
            assert(n <= n * pow2(up as nat)) by (nonlinear_arith)
                requires
                    pow2(up as nat) > 0,
            ;
            if len + up < 53 {
                lemma_pow2_strictly_increases((len + up) as nat, 53);
            }
            if q > 0 {
                lemma_pow2_adds((len - 1) as nat, up as nat);
                assert(n * pow2(up as nat) >= pow2((len - 1) as nat) * pow2(up as nat))
                    by (nonlinear_arith)
                    requires
                        n >= pow2((len - 1) as nat),
                        pow2(up as nat) > 0,
                ;
            }
            lemma_u64_shl_is_mul(n as u64, up as u64);
        }
        (n as u64) << (up as u64)
    } else {
        round_quotient(n, (q - e) as u32)
    };
    proof {
        absolute_of_parts(significand as int, q as nat);
    }
    q as u64 * EXPONENT_STEP + significand
}

/// The double precision number nearest to the exact value `v`.
pub open spec fn rounded(v: int) -> int {
    rounded_at(v, 0)
}

/// The double precision number nearest to `v * 2^e`.
pub open spec fn rounded_at(v: int, e: int) -> int {
    if v < 0 {
        -(rounding::nearest((-v) as nat, e) as int)
    } else {
        rounding::nearest(v as nat, e) as int
    }
}

/// The double precision number nearest to `v / d`.
pub open spec fn quotient_of(v: int, d: int) -> int {
    if v < 0 {
        -(rounding::nearest_quotient((-v) as nat, d as nat) as int)
    } else {
        rounding::nearest_quotient(v as nat, d as nat) as int
    }
}

/// The bound below which sums and products stay finite.
pub open spec fn bounded(v: int) -> bool {
    -pow2(1500) < v < pow2(1500)
}

/// Rounding sees the number alone, not how it is written.
pub proof fn rounded_scaled(v: int, j: nat, e: int)
    ensures
        rounded_at(v * pow2(j), e) == rounded_at(v, e + j),
{
    lemma_pow2_pos(j);
    let p = pow2(j) as int;
    if v > 0 {
        rounding::nearest_scaled(v as nat, j, e);
        assert(v * p > 0) by (nonlinear_arith)
            requires
                v > 0,
                p > 0,
        ;
    } else if v < 0 {
        rounding::nearest_scaled((-v) as nat, j, e);
        assert((-v) * p == -(v * p) && v * p < 0) by (nonlinear_arith)
            requires
                v < 0,
                p > 0,
        ;
    } else {
        assert(0 * p == 0) by (nonlinear_arith);
        rounding::nearest_zero(e);
        rounding::nearest_zero(e + j);
    }
}

/// A number that is less than a power of two has no more digits than that.
pub proof fn digits_below(n: nat, k: nat)
    requires
        n < pow2(k),
    ensures
        rounding::bit_length(n) <= k,
{
    rounding::bit_length_bounds(n);
    let l = rounding::bit_length(n);
    if l > k + 1 {
        lemma_pow2_strictly_increases(k, (l - 1) as nat);
    }
}

/// How a significand below `2^53` and a scale make up a bounded absolute value.
proof fn bounded_parts(significand: nat, scale: nat)
    requires
        significand * pow2(scale) < pow2(1500),
    ensures
        significand > 0 ==> rounding::bit_length(significand) + scale <= 1500,
{
    if significand > 0 {
        rounding::bit_length_scaled(significand, scale);
        digits_below(significand * pow2(scale), 1500);
    }
}

/// A number far below another is lost in their sum.
proof fn absorbed(sa: nat, ea: nat, sb: nat, eb: nat)
    requires
        pow2(52) <= sa < pow2(53),
        sb < pow2(53),
        ea >= eb + 56,
    ensures
        sa * pow2(ea) >= sb * pow2(eb),
        rounded((sa * pow2(ea) + sb * pow2(eb)) as int) == sa * pow2(ea),
        rounded(sa * pow2(ea) - sb * pow2(eb)) == sa * pow2(ea),
        rounded(sb * pow2(eb) - sa * pow2(ea)) == -(sa * pow2(ea)),
        rounded(-(sa * pow2(ea)) - sb * pow2(eb)) == -(sa * pow2(ea)),
{
    let b = sb * pow2(eb);
    lemma_pow2_adds(53, eb);
    lemma_pow2_pos(eb);
    assert(b < pow2(53) * pow2(eb)) by (nonlinear_arith)
        requires
            b == sb * pow2(eb),
            sb < pow2(53),
            pow2(eb) > 0,
    ;
    if 53 + eb < ea - 3 {
        lemma_pow2_strictly_increases((53 + eb) as nat, (ea - 3) as nat);
    }
    rounding::nearest_absorbs(sa, ea, b);
    lemma_pow2_pos(52);
    lemma_pow2_strictly_increases((ea - 3) as nat, ea);
    assert(sa * pow2(ea) >= pow2(ea)) by (nonlinear_arith)
        requires
            sa > 0,
    ;
}

/// A significand brought to a lower scale.
proof fn scaled_up(sa: nat, ea: nat, gap: nat, sb: nat, eb: nat)
    requires
        sa < pow2(53),
        sb < pow2(53),
        ea == eb + gap,
        gap <= 55,
    ensures
        (sa * pow2(gap)) * pow2(eb) == sa * pow2(ea),
        sa * pow2(gap) + sb < pow2(109),
        sa * pow2(gap) <= u128::MAX,
{
    let p = pow2(gap);
    lemma2_to64();
    if gap < 55 {
        lemma_pow2_strictly_increases(gap, 55);
    }
    lemma_pow2_adds(53, 55);
    lemma_pow2_adds(1, 108);
    lemma_pow2_strictly_increases(53, 108);
    lemma_pow2_strictly_increases(109, 128);
    lemma_pow2_adds(64, 64);
    assert(sa * p <= pow2(108)) by (nonlinear_arith)
        requires
            sa < pow2(53),
            p <= pow2(55),
            pow2(108) == pow2(53) * pow2(55),
    ;
    lemma_pow2_adds(gap, eb);
    assert((sa * p) * pow2(eb) == sa * pow2(ea)) by (nonlinear_arith)
        requires
            pow2(ea) == p * pow2(eb),
    ;
}

/// The digits of a product.
proof fn digits_of_product(a: nat, b: nat)
    ensures
        rounding::bit_length(a * b) <= rounding::bit_length(a) + rounding::bit_length(b),
{
    let (la, lb) = (rounding::bit_length(a), rounding::bit_length(b));
    rounding::bit_length_bounds(a);
    rounding::bit_length_bounds(b);
    lemma_pow2_adds(la, lb);
    assert(a * b < pow2(la) * pow2(lb)) by (nonlinear_arith)
        requires
            a < pow2(la),
            b < pow2(lb),
    ;
    digits_below(a * b, la + lb);
}

impl Binary64 {
    /// The significand and the power of two that scales it.
    fn parts(self) -> (r: (u64, i32))
        requires
            self.finite(),
        ensures
            r.0 == significand_of(self.magnitude()),
            r.1 == scale_of(self.magnitude()),
            r.0 < 2 * EXPONENT_STEP,
            r.1 > 0 ==> r.0 >= EXPONENT_STEP,
            0 <= r.1 <= 2045,
            r.0 * pow2(r.1 as nat) == self.absolute(),
            rounding::bit_length(r.0 as nat) <= 53,
    {
        let low: u64 = self.low_bits();
        let r: (u64, i32) = if low < EXPONENT_STEP {
            (low, 0)
        } else {
            (low % EXPONENT_STEP + EXPONENT_STEP, (low / EXPONENT_STEP - 1) as i32)
        };
        proof {
            lemma2_to64();
            lemma2_to64_rest();
            digits_below(r.0 as nat, 53);
        }
        r
    }

    /// The number with the given sign and absolute value.
    fn signed(negative: bool, magnitude: u64) -> (r: Binary64)
        requires
            magnitude < EXPONENT_LIMIT * EXPONENT_STEP,
        ensures
            r.finite(),
            r.negative() == negative,
            r.magnitude() == magnitude,
            r.value() == if negative {
                -absolute_of(magnitude as int)
            } else {
                absolute_of(magnitude as int)
            },
    {
        let r = Binary64 {
            bits: if negative {
                magnitude + SIGN_BIT
            } else {
                magnitude
            },
        };
        proof {
            lemma_multiply_divide_lt(magnitude as int, EXPONENT_STEP as int, EXPONENT_LIMIT as int);
        }
        r
    }

    /// The number with its sign turned.
    pub fn negated(self) -> (r: Binary64)
        ensures
            r.value() == -self.value(),
            r.magnitude() == self.magnitude(),
    {
        Binary64 {
            bits: if self.bits >= SIGN_BIT {
                self.bits - SIGN_BIT
            } else {
                self.bits + SIGN_BIT
            },
        }
    }

    /// The number without its sign.
    pub fn abs(self) -> (r: Binary64)
        ensures
            r.value() == self.absolute(),
            r.magnitude() == self.magnitude(),
            !r.negative(),
    {
        Binary64 { bits: self.low_bits() }
    }

    /// The number nearest to `(a + b) * 2^e`, where each of the two has a sign of its own.
    fn combined(
        a_negative: bool,
        a: u128,
        b_negative: bool,
        b: u128,
        e: i32,
        Ghost(k): Ghost<nat>,
    ) -> (r: Binary64)
        requires
            a + b < pow2(k),
            k <= 125,
            k + e <= 2097,
            -4000 <= e <= 4000,
        ensures
            r.finite(),
            r.value() == rounded_at(
                (if a_negative {
                    -(a as int)
                } else {
                    a as int
                }) + (if b_negative {
                    -(b as int)
                } else {
                    b as int
                }),
                e as int,
            ),
    {
        proof {
            lemma2_to64();
            lemma_pow2_strictly_increases(125, 128);
            lemma_pow2_adds(64, 64);
            if k < 125 {
                lemma_pow2_strictly_increases(k, 125);
            }
        }
        let (negative, n): (bool, u128) = if a_negative == b_negative {
            (a_negative, a + b)
        } else if a >= b {
            (a_negative, a - b)
        } else {
            (b_negative, b - a)
        };
        proof {
            digits_below(n as nat, k);
            rounding::nearest_zero(e as int);
        }
        let m: u64 = encode_nearest(n, e);
        Binary64::signed(negative, m)
    }

    /// The sum, where the first number's scale is not the lower one.
    fn plus_smaller(self, other: Binary64) -> (r: Binary64)
        requires
            self.finite(),
            other.finite(),
            bounded(self.value()),
            bounded(other.value()),
            scale_of(self.magnitude()) >= scale_of(other.magnitude()),
        ensures
            r.finite(),
            r.value() == rounded(self.value() + other.value()),
    {
        let (sa, ea) = self.parts();
        let (sb, eb) = other.parts();
        let na: bool = self.is_negative();
        let nb: bool = other.is_negative();
        let gap: u32 = (ea - eb) as u32;
        proof {
            lemma2_to64();
            lemma2_to64_rest();
        }
        if gap >= 56 {
            proof {
                absorbed(sa as nat, ea as nat, sb as nat, eb as nat);
            }
            return self;
        }
        proof {
            scaled_up(sa as nat, ea as nat, gap as nat, sb as nat, eb as nat);
            bounded_parts(sa as nat, ea as nat);
            bounded_parts(sb as nat, eb as nat);
        }
        let a: u128 = sa as u128 * power_of_two(gap);
        let b: u128 = sb as u128;
        proof {
            let va: int = if na {
                -(a as int)
            } else {
                a as int
            };
            let vb: int = if nb {
                -(b as int)
            } else {
                b as int
            };
            let q = pow2(eb as nat) as int;
            assert((va + vb) * q == self.value() + other.value()) by (nonlinear_arith)
                requires
                    va == (if na { -(a as int) } else { a as int }),
                    vb == (if nb { -(b as int) } else { b as int }),
                    self.value() == (if na { -(a * q) } else { a * q }),
                    other.value() == (if nb { -(b * q) } else { b * q }),
            ;
            rounded_scaled(va + vb, eb as nat, 0);
        }
        Binary64::combined(na, a, nb, b, eb, Ghost(109))
    }

    /// The sum, rounded to the nearest number.
    pub fn plus(self, other: Binary64) -> (r: Binary64)
        requires
            self.finite(),
            other.finite(),
            bounded(self.value()),
            bounded(other.value()),
        ensures
            r.finite(),
            r.value() == rounded(self.value() + other.value()),
    {
        let (_, ea) = self.parts();
        let (_, eb) = other.parts();
        if ea >= eb {
            self.plus_smaller(other)
        } else {
            other.plus_smaller(self)
        }
    }

    /// The difference, rounded to the nearest number.
    pub fn minus(self, other: Binary64) -> (r: Binary64)
        requires
            self.finite(),
            other.finite(),
            bounded(self.value()),
            bounded(other.value()),
        ensures
            r.finite(),
            r.value() == rounded(self.value() - other.value()),
    {
        self.plus(other.negated())
    }

    /// The product, rounded to the nearest number.
    pub fn times(self, other: Binary64) -> (r: Binary64)
        requires
            self.finite(),
            other.finite(),
            bounded(self.value()),
            bounded(other.value()),
        ensures
            r.finite(),
            r.value() == rounded_at(self.value() * other.value(), -1074),
    {
        let (sa, ea) = self.parts();
        let (sb, eb) = other.parts();
        proof {
            lemma2_to64();
            lemma2_to64_rest();
            lemma_pow2_adds(53, 53);
            lemma_pow2_strictly_increases(106, 125);
            lemma_pow2_strictly_increases(106, 128);
            lemma_pow2_adds(64, 64);
            assert(sa * sb < pow2(53) * pow2(53)) by (nonlinear_arith)
                requires
                    sa < pow2(53),
                    sb < pow2(53),
            ;
            bounded_parts(sa as nat, ea as nat);
            bounded_parts(sb as nat, eb as nat);
            digits_of_product(sa as nat, sb as nat);
        }
        let n: u128 = sa as u128 * sb as u128;
        let ghost negative = self.negative() != other.negative();
        proof {
            let v: int = if negative {
                -(n as int)
            } else {
                n as int
            };
            let (p, q) = (pow2(ea as nat) as int, pow2(eb as nat) as int);
            let (x, y) = (self.value(), other.value());
            lemma_pow2_adds(ea as nat, eb as nat);
            assert(x * y == v * (p * q)) by (nonlinear_arith)
                requires
                    x == (if self.negative() { -(sa * p) } else { sa * p }),
                    y == (if other.negative() { -(sb * q) } else { sb * q }),
                    v == (if self.negative() != other.negative() { -(sa * sb) } else { sa * sb }),
            ;
            rounded_scaled(v, (ea + eb) as nat, -1074);
            rounding::nearest_zero(ea + eb - 1074);
            if n == 0 {
                assert(sa == 0 || sb == 0) by (nonlinear_arith)
                    requires
                        sa * sb == 0,
                ;
            }
        }
        let m: u64 = encode_nearest(n, ea + eb - 1074);
        Binary64::signed(self.is_negative() != other.is_negative(), m)
    }
}

/// A number of double precision is its own nearest one.
pub proof fn rounded_exact(x: Binary64)
    requires
        x.finite(),
    ensures
        rounded(x.value()) == x.value(),
{
    let m = x.magnitude();
    let (s, e) = (significand_of(m) as nat, scale_of(m));
    lemma2_to64();
    lemma2_to64_rest();
    digits_below(s, 53);
    rounding::nearest_exact(s, e);
    rounding::nearest_zero(0);
    if s > 0 {
        rounding::nearest_scaled(s, e, 0);
    } else {
        assert(0 * pow2(e) == 0) by (nonlinear_arith);
    }
}

/// `v` with a sign.
pub open spec fn with_sign(negative: bool, v: int) -> int {
    if negative {
        -v
    } else {
        v
    }
}

/// In a sum of a large and a small part, what the small part has below the last digit of the large
/// one is rounded alike whatever its size.
proof fn sticky_sum(
    big_negative: bool,
    big: nat,
    small_negative: bool,
    b: nat,
    t: nat,
    r: nat,
    e: int,
)
    requires
        big >= b + 1 + pow2(54),
        0 < r < pow2(t),
    ensures
        rounded_at(
            with_sign(big_negative, (big * pow2(t)) as int) + with_sign(
                small_negative,
                (b * pow2(t) + r) as int,
            ),
            e - t,
        ) == rounded_at(
            with_sign(big_negative, (2 * big) as int) + with_sign(
                small_negative,
                (2 * b + 1) as int,
            ),
            e - 1,
        ),
{
    let p = pow2(t);
    lemma_pow2_pos(t);
    let k: nat = if big_negative == small_negative {
        big + b
    } else {
        (big - b - 1) as nat
    };
    rounding::bit_length_bounds(k);
    let l = rounding::bit_length(k);
    if l < 55 {
        if l < 54 {
            lemma_pow2_strictly_increases(l, 54);
        }
    }
    if big_negative == small_negative {
        assert(big * p + b * p == k * p) by (nonlinear_arith)
            requires
                k == big + b,
        ;
        rounding::nearest_sticky(k, t, r, e);
    } else {
        assert(big * p - b * p == k * p + p) by (nonlinear_arith)
            requires
                k == big - b - 1,
        ;
        rounding::nearest_sticky(k, t, (p - r) as nat, e);
    }
}

/// How a quotient is found with few digits: the dividend is scaled so that the quotient has 53.
proof fn quotient_parts(s: nat, e: nat, d: nat, q: nat)
    requires
        s < pow2(53),
        e > 0 ==> s >= pow2(52),
        0 < d < 256,
        q == rounding::spacing(s / d, e as int),
    ensures
        q <= e,
        e - q <= 8,
        s * pow2((e - q) as nat) < pow2(61),
        rounding::nearest_quotient(s * pow2(e), d) == rounding::half_even(
            s * pow2((e - q) as nat),
            d,
        ) * pow2(q),
        rounding::half_even(s * pow2((e - q) as nat), d) <= pow2(53),
        q > 0 ==> rounding::half_even(s * pow2((e - q) as nat), d) >= pow2(52),
{
    lemma2_to64();
    lemma2_to64_rest();
    let x = s / d;
    let l = rounding::bit_length(x);
    rounding::bit_length_bounds(x);
    lemma_div_is_ordered_by_denominator(s as int, 1, d as int);
    digits_below(x, 53);
    if e > 0 {
        assert(x >= pow2(44)) by {
            lemma_div_is_ordered((d * pow2(44)) as int, s as int, d as int);
            lemma_div_multiples_vanish(pow2(44) as int, d as int);
        }
        if l < 45 {
            if l < 44 {
                lemma_pow2_strictly_increases(l, 44);
            }
        }
    }
    let up = (e - q) as nat;
    let n = s * pow2(up);
    lemma_pow2_pos(up);
    if up < 8 {
        lemma_pow2_strictly_increases(up, 8);
    }
    assert(n < pow2(53) * pow2(8)) by (nonlinear_arith)
        requires
            n == s * pow2(up),
            s < pow2(53),
            0 < pow2(up) <= pow2(8),
    ;
    lemma_pow2_adds(53, 8);
    if x > 0 {
        rounding::quotient_scaled(s, e, d);
        rounding::quotient_scaled(s, up, d);
    } else {
        assert(e == 0);
        assert(s * 1 == s);
    }
    lemma_pow2_adds(up, q);
    lemma_pow2_pos(q);
    assert(s * pow2(e) == n * pow2(q)) by (nonlinear_arith)
        requires
            n == s * pow2(up),
            pow2(e) == pow2(up) * pow2(q),
    ;
    rounding::half_even_scaled(n, d, pow2(q));
    let y = n / d;
    rounding::bit_length_bounds(y);
    let ly = rounding::bit_length(y);
    if ly < 53 {
        lemma_pow2_strictly_increases(ly, 53);
    }
    rounding::half_even_bounds(n, d);
}

impl Binary64 {
    /// The quotient by a small whole number, rounded to the nearest number.
    pub fn divided_by(self, d: u8) -> (r: Binary64)
        requires
            self.finite(),
            bounded(self.value()),
            d > 0,
        ensures
            r.finite(),
            r.value() == quotient_of(self.value(), d as int),
    {
        let (s, e) = self.parts();
        let len: i32 = digits((s / d as u64) as u128) as i32;
        let q: i32 = if len + e <= 53 {
            0
        } else {
            len + e - 53
        };
        let ghost a = s as nat;
        proof {
            lemma2_to64();
            lemma2_to64_rest();
            bounded_parts(a, e as nat);
            quotient_parts(a, e as nat, d as nat, q as nat);
        }
        let up: u32 = (e - q) as u32;
        proof {
            lemma_u64_shl_is_mul(s, up as u64);
        }
        let n: u64 = s << (up as u64);
        let down: u64 = n / d as u64;
        let rest: u64 = n % d as u64;
        let significand: u64 = if 2 * rest < d as u64 {
            down
        } else if 2 * rest > d as u64 {
            down + 1
        } else {
            down + down % 2
        };
        proof {
            absolute_of_parts(significand as int, q as nat);
            rounding::nearest_quotient_zero(d as nat);
        }
        Binary64::signed(self.is_negative(), q as u64 * EXPONENT_STEP + significand)
    }
}

/// The sum of a product and a third number, written over the two scales.
proof fn fused_sum(
    product_negative: bool,
    n: nat,
    e: nat,
    addend_negative: bool,
    c: nat,
    f: nat,
    total: int,
)
    requires
        total == with_sign(product_negative, (n * pow2(e)) as int) + with_sign(
            addend_negative,
            (c * pow2(f)) as int,
        ),
    ensures
        e >= f ==> rounded_at(total, -1178) == rounded_at(
            with_sign(product_negative, (n * pow2((e - f) as nat)) as int) + with_sign(
                addend_negative,
                c as int,
            ),
            f - 1178,
        ),
        f >= e ==> rounded_at(total, -1178) == rounded_at(
            with_sign(product_negative, n as int) + with_sign(
                addend_negative,
                (c * pow2((f - e) as nat)) as int,
            ),
            e - 1178,
        ),
{
    if e >= f {
        let u = (e - f) as nat;
        let a = n * pow2(u);
        let w = with_sign(product_negative, a as int) + with_sign(addend_negative, c as int);
        let q = pow2(f);
        lemma_pow2_adds(u, f);
        assert(w * q == total) by (nonlinear_arith)
            requires
                w == with_sign(product_negative, a as int) + with_sign(addend_negative, c as int),
                total == with_sign(product_negative, (n * pow2(e)) as int) + with_sign(
                    addend_negative,
                    (c * q) as int,
                ),
                a == n * pow2(u),
                pow2(e) == pow2(u) * q,
        ;
        rounded_scaled(w, f, -1178);
    }
    if f >= e {
        let u = (f - e) as nat;
        let b = c * pow2(u);
        let w = with_sign(product_negative, n as int) + with_sign(addend_negative, b as int);
        let q = pow2(e);
        lemma_pow2_adds(u, e);
        assert(w * q == total) by (nonlinear_arith)
            requires
                w == with_sign(product_negative, n as int) + with_sign(addend_negative, b as int),
                total == with_sign(product_negative, (n * q) as int) + with_sign(
                    addend_negative,
                    (c * pow2(f)) as int,
                ),
                b == c * pow2(u),
                pow2(f) == pow2(u) * q,
        ;
        rounded_scaled(w, e, -1178);
    }
}

/// The integer part of `x / 2^t`, and whether something is left.
fn split_at(x: u128, t: u32) -> (r: (u128, bool))
    requires
        x < pow2(125),
        t < 4000,
    ensures
        r.0 == x as nat / pow2(t as nat),
        r.1 == (x as nat % pow2(t as nat) != 0),
{
    proof {
        lemma_pow2_pos(t as nat);
    }
    if t >= 126 {
        proof {
            lemma_pow2_strictly_increases(125, t as nat);
            lemma_basic_div(x as int, pow2(t as nat) as int);
            lemma_small_mod(x as nat, pow2(t as nat));
        }
        return (0, x != 0);
    }
    let d: u128 = power_of_two(t);
    (x / d, x % d != 0)
}

impl Binary64 {
    /// The number nearest to `big * 2^e + small * 2^(e - t)`, each part with a sign of its own,
    /// where the small part may reach below the last digit of the big one.
    fn combined_tail(
        big_negative: bool,
        big: u128,
        small_negative: bool,
        small: u128,
        t: u32,
        e: i32,
    ) -> (r: Binary64)
        requires
            0 < t < 4000,
            -2000 <= e <= 1930,
            big < pow2(121),
            small < pow2(106),
            big >= small as nat / pow2(t as nat) + 1 + pow2(54),
        ensures
            r.finite(),
            r.value() == rounded_at(
                with_sign(big_negative, (big * pow2(t as nat)) as int) + with_sign(
                    small_negative,
                    small as int,
                ),
                e - t,
            ),
    {
        proof {
            lemma2_to64();
            lemma_pow2_adds(64, 64);
            lemma_pow2_strictly_increases(106, 120);
            lemma_pow2_strictly_increases(106, 125);
            lemma_pow2_strictly_increases(123, 128);
            lemma_pow2_adds(1, 120);
            lemma_pow2_adds(1, 121);
            lemma_pow2_adds(1, 122);
            lemma_pow2_pos(t as nat);
            lemma_fundamental_div_mod(small as int, pow2(t as nat) as int);
            lemma_div_is_ordered_by_denominator(small as int, 1, pow2(t as nat) as int);
        }
        let (b, lost) = split_at(small, t);
        let ghost p = pow2(t as nat);
        let ghost rest = small as nat % p;
        assert(small == b * p + rest) by (nonlinear_arith)
            requires
                small == p * (small as nat / p) + rest,
                b == small as nat / p,
        ;
        if lost {
            proof {
                sticky_sum(
                    big_negative,
                    big as nat,
                    small_negative,
                    b as nat,
                    t as nat,
                    rest,
                    e as int,
                );
            }
            Binary64::combined(
                big_negative,
                2 * big,
                small_negative,
                2 * b + 1,
                e - 1,
                Ghost(123),
            )
        } else {
            proof {
                let w = with_sign(big_negative, big as int) + with_sign(small_negative, b as int);
                assert(w * p == with_sign(big_negative, (big * p) as int) + with_sign(
                    small_negative,
                    small as int,
                )) by (nonlinear_arith)
                    requires
                        w == with_sign(big_negative, big as int) + with_sign(
                            small_negative,
                            b as int,
                        ),
                        small == b * p,
                ;
                rounded_scaled(w, t as nat, e - t);
            }
            Binary64::combined(big_negative, big, small_negative, b, e, Ghost(123))
        }
    }

    /// The number nearest to `n * 2^(e - 1178) + c * 2^(f - 1178)`, each part with a sign of its
    /// own.
    fn fused(
        product_negative: bool,
        n: u128,
        e: i32,
        addend_negative: bool,
        c: u64,
        f: i32,
        Ghost(total): Ghost<int>,
    ) -> (r: Binary64)
        requires
            pow2(104) <= n < pow2(106),
            pow2(52) <= c < pow2(53),
            0 <= e <= 3104,
            1126 <= f <= 2704,
            total == with_sign(product_negative, (n * pow2(e as nat)) as int) + with_sign(
                addend_negative,
                (c * pow2(f as nat)) as int,
            ),
        ensures
            r.finite(),
            r.value() == rounded_at(total, -1178),
    {
        let ghost (nn, cc) = (n as nat, c as nat);
        proof {
            fused_sum(product_negative, nn, e as nat, addend_negative, cc, f as nat, total);
            lemma2_to64();
            lemma2_to64_rest();
            lemma_pow2_adds(64, 64);
            lemma_pow2_adds(106, 16);
            lemma_pow2_adds(53, 68);
            lemma_pow2_adds(52, 68);
            lemma_pow2_adds(1, 122);
            lemma_pow2_adds(1, 106);
            lemma_pow2_adds(50, 54);
            lemma_pow2_strictly_increases(53, 106);
            lemma_pow2_strictly_increases(107, 121);
            lemma_pow2_strictly_increases(107, 122);
            lemma_pow2_strictly_increases(121, 122);
            lemma_pow2_strictly_increases(123, 128);
        }
        if e >= f {
            let d: u32 = (e - f) as u32;
            if d <= 16 {
                proof {
                    if d < 16 {
                        lemma_pow2_strictly_increases(d as nat, 16);
                    }
                    assert(n * pow2(d as nat) <= pow2(106) * pow2(16)) by (nonlinear_arith)
                        requires
                            n < pow2(106),
                            pow2(d as nat) <= pow2(16),
                    ;
                }
                return Binary64::combined(
                    product_negative,
                    n * power_of_two(d),
                    addend_negative,
                    c as u128,
                    f - 1178,
                    Ghost(123),
                );
            }
            proof {
                lemma_pow2_pos(d as nat);
                lemma_div_is_ordered_by_denominator(c as int, 1, pow2(d as nat) as int);
            }
            Binary64::combined_tail(
                product_negative,
                n,
                addend_negative,
                c as u128,
                d,
                e - 1178,
            )
        } else {
            let g: u32 = (f - e) as u32;
            if g <= 68 {
                proof {
                    if g < 68 {
                        lemma_pow2_strictly_increases(g as nat, 68);
                    }
                    assert(c * pow2(g as nat) <= pow2(53) * pow2(68)) by (nonlinear_arith)
                        requires
                            c < pow2(53),
                            pow2(g as nat) <= pow2(68),
                    ;
                }
                return Binary64::combined(
                    product_negative,
                    n,
                    addend_negative,
                    c as u128 * power_of_two(g),
                    e - 1178,
                    Ghost(123),
                );
            }
            let ghost big = cc * pow2(68);
            proof {
                let h = (g - 68) as nat;
                lemma_pow2_adds(68, h);
                assert(cc * pow2(g as nat) == big * pow2(h)) by (nonlinear_arith)
                    requires
                        big == cc * pow2(68),
                        pow2(g as nat) == pow2(68) * pow2(h),
                ;
                assert(pow2(120) <= big < pow2(121)) by (nonlinear_arith)
                    requires
                        big == cc * pow2(68),
                        pow2(52) <= cc < pow2(53),
                        pow2(121) == pow2(53) * pow2(68),
                        pow2(120) == pow2(52) * pow2(68),
                        pow2(68) > 0,
                ;
                lemma_pow2_strictly_increases(106, 119);
                lemma_pow2_adds(1, 119);
                lemma_pow2_strictly_increases(55, 119);
                lemma_pow2_pos(h);
                lemma_div_is_ordered_by_denominator(n as int, 1, pow2(h) as int);
            }
            Binary64::combined_tail(
                addend_negative,
                c as u128 * power_of_two(68),
                product_negative,
                n,
                g - 68,
                f - 68 - 1178,
            )
        }
    }

    /// The significand brought to 53 digits, unless it is zero, and the scale that goes with it.
    fn normal_parts(self) -> (r: (u64, i32))
        requires
            self.finite(),
            bounded(self.value()),
        ensures
            r.0 * pow2((r.1 + 52) as nat) == self.absolute() * pow2(52),
            r.0 == 0 || pow2(52) <= r.0 < pow2(53),
            -52 <= r.1 <= 1500,
            r.0 == 0 <==> self.value() == 0,
    {
        let (s, e) = self.parts();
        proof {
            lemma2_to64();
            lemma2_to64_rest();
            bounded_parts(s as nat, e as nat);
            lemma_pow2_adds(e as nat, 52);
            lemma_pow2_pos(e as nat);
            assert(s * (pow2(e as nat) * pow2(52)) == (s * pow2(e as nat)) * pow2(52))
                by (nonlinear_arith);
            assert(s == 0 <==> s * pow2(e as nat) == 0) by (nonlinear_arith)
                requires
                    s >= 0,
                    pow2(e as nat) > 0,
            ;
        }
        if s == 0 {
            assert(forall|x: nat| #[trigger] (0 * x) == 0) by (nonlinear_arith);
            return (0, 0);
        }
        if e > 0 {
            return (s, e);
        }
        let len: u32 = digits(s as u128);
        let up: u64 = (53 - len) as u64;
        proof {
            rounding::bit_length_bounds(s as nat);
            lemma_pow2_adds(len as nat, up as nat);
            lemma_pow2_adds((len - 1) as nat, up as nat);
            lemma_pow2_adds(up as nat, (52 - up) as nat);
            lemma_pow2_pos(up as nat);
            let p = pow2(up as nat);
            assert(pow2((len - 1) as nat) * p <= s * p < pow2(len as nat) * p) by (nonlinear_arith)
                requires
                    pow2((len - 1) as nat) <= s < pow2(len as nat),
                    p > 0,
            ;
            lemma_u64_shl_is_mul(s, up);
            let q = pow2((52 - up) as nat);
            assert((s * p) * q == s * pow2(52)) by (nonlinear_arith)
                requires
                    pow2(52) == p * q,
            ;
        }
        (s << up, -(up as i32))
    }

    /// The product with `factor`, plus `addend`, rounded to the nearest number once.
    pub fn mul_add(self, factor: Binary64, addend: Binary64) -> (r: Binary64)
        requires
            self.finite(),
            factor.finite(),
            addend.finite(),
            bounded(self.value()),
            bounded(factor.value()),
            bounded(addend.value()),
        ensures
            r.finite(),
            r.value() == rounded_at(
                self.value() * factor.value() + addend.value() * one(),
                -1074,
            ),
    {
        let (sa, ea) = self.normal_parts();
        let (sb, eb) = factor.normal_parts();
        let (sc, ec) = addend.normal_parts();
        let ghost total = self.value() * factor.value() + addend.value() * one();
        proof {
            assert(forall|z: int| #[trigger] (0 * z) == 0) by (nonlinear_arith);
            assert(forall|z: int| #[trigger] (z * 0) == 0) by (nonlinear_arith);
        }
        if sa == 0 || sb == 0 {
            proof {
                rounded_scaled(addend.value(), 1074, -1074);
                rounded_exact(addend);
            }
            return addend;
        }
        if sc == 0 {
            return self.times(factor);
        }
        proof {
            lemma2_to64();
            lemma2_to64_rest();
            lemma_pow2_adds(52, 52);
            lemma_pow2_adds(53, 53);
            lemma_pow2_strictly_increases(106, 128);
            lemma_pow2_adds(64, 64);
            assert(pow2(52) * pow2(52) <= sa * sb < pow2(53) * pow2(53)) by (nonlinear_arith)
                requires
                    pow2(52) <= sa < pow2(53),
                    pow2(52) <= sb < pow2(53),
            ;
            normal_total(
                self,
                factor,
                addend,
                sa as nat,
                ea as int,
                sb as nat,
                eb as int,
                sc as nat,
                ec as int,
            );
            rounded_scaled(total, 104, -1178);
        }
        Binary64::fused(
            self.is_negative() != factor.is_negative(),
            sa as u128 * sb as u128,
            ea + eb + 104,
            addend.is_negative(),
            sc,
            ec + 1178,
            Ghost(total * pow2(104)),
        )
    }
}

/// A product plus a third number, over significands of 53 digits and their scales.
proof fn normal_total(
    a: Binary64,
    b: Binary64,
    c: Binary64,
    sa: nat,
    ea: int,
    sb: nat,
    eb: int,
    sc: nat,
    ec: int,
)
    requires
        ea >= -52,
        eb >= -52,
        ec >= -52,
        sa * pow2((ea + 52) as nat) == a.absolute() * pow2(52),
        sb * pow2((eb + 52) as nat) == b.absolute() * pow2(52),
        sc * pow2((ec + 52) as nat) == c.absolute() * pow2(52),
    ensures
        (a.value() * b.value() + c.value() * one()) * pow2(104) == with_sign(
            a.negative() != b.negative(),
            ((sa * sb) * pow2((ea + eb + 104) as nat)) as int,
        ) + with_sign(c.negative(), (sc * pow2((ec + 1178) as nat)) as int),
{
    let (p, q, r) = (
        pow2((ea + 52) as nat) as int,
        pow2((eb + 52) as nat) as int,
        pow2((ec + 52) as nat) as int,
    );
    let k = pow2(52) as int;
    let u = one() as int;
    lemma_pow2_adds((ea + 52) as nat, (eb + 52) as nat);
    lemma_pow2_adds(52, 52);
    lemma_pow2_adds((ec + 52) as nat, 1126);
    lemma_pow2_adds(52, 1074);
    let (x, y, z) = (a.absolute(), b.absolute(), c.absolute());
    assert((x * y) * (k * k) == (sa * sb) * (p * q)) by (nonlinear_arith)
        requires
            sa * p == x * k,
            sb * q == y * k,
    ;
    assert((z * u) * (k * k) == sc * (r * (k * u))) by (nonlinear_arith)
        requires
            sc * r == z * k,
    ;
    let v = a.value() * b.value();
    assert(v == with_sign(a.negative() != b.negative(), x * y)) by (nonlinear_arith)
        requires
            v == a.value() * b.value(),
            a.value() == with_sign(a.negative(), x),
            b.value() == with_sign(b.negative(), y),
    ;
    let w = c.value() * u;
    assert(w == with_sign(c.negative(), z * u)) by (nonlinear_arith)
        requires
            w == c.value() * u,
            c.value() == with_sign(c.negative(), z),
    ;
    assert((v + w) * (k * k) == v * (k * k) + w * (k * k)) by (nonlinear_arith);
    assert(forall|n: int, d: int| #[trigger] ((-n) * d) == -(n * d)) by (nonlinear_arith);
}

/// The whole part of a value, without its fraction, held to the range of 64 signed bits.
pub open spec fn truncated_of(v: int) -> int {
    let whole = (if v < 0 {
        -v
    } else {
        v
    }) / (one() as int);
    if v < 0 {
        if whole > 0x8000_0000_0000_0000 {
            -0x8000_0000_0000_0000
        } else {
            -whole
        }
    } else if whole > 0x7fff_ffff_ffff_ffff {
        0x7fff_ffff_ffff_ffff
    } else {
        whole
    }
}

/// The whole number nearest to a value, halves upwards, held to the range of a color channel.
pub open spec fn channel_of(v: int) -> int {
    let whole = (2 * v + one()) / (2 * one() as int);
    if v < 0 {
        0
    } else if whole > 255 {
        255
    } else {
        whole
    }
}

impl Binary64 {
    /// The whole part of the number's absolute value, up to `2^63`.
    fn whole_part(self) -> (r: u64)
        requires
            self.finite(),
        ensures
            r <= SIGN_BIT,
            r == (if self.absolute() / (one() as int) < SIGN_BIT {
                self.absolute() / (one() as int)
            } else {
                SIGN_BIT as int
            }),
    {
        let (s, e) = self.parts();
        proof {
            lemma2_to64();
            lemma2_to64_rest();
            lemma_pow2_pos(1074);
        }
        if e >= 1085 {
            proof {
                let u = (e - 1074) as nat;
                lemma_pow2_adds(u, 1074);
                if u > 11 {
                    lemma_pow2_strictly_increases(11, u);
                }
                assert(s * pow2(e as nat) == (s * pow2(u)) * pow2(1074)) by (nonlinear_arith)
                    requires
                        pow2(e as nat) == pow2(u) * pow2(1074),
                ;
                lemma_div_by_multiple((s * pow2(u)) as int, pow2(1074) as int);
                lemma_pow2_adds(52, 11);
                assert(s * pow2(u) >= pow2(52) * pow2(11)) by (nonlinear_arith)
                    requires
                        s >= pow2(52),
                        pow2(u) >= pow2(11),
                ;
            }
            SIGN_BIT
        } else if e >= 1074 {
            let up: u64 = (e - 1074) as u64;
            proof {
                let u = up as nat;
                lemma_pow2_adds(u, 1074);
                if u < 10 {
                    lemma_pow2_strictly_increases(u, 10);
                }
                lemma_pow2_pos(u);
                assert(s * pow2(e as nat) == (s * pow2(u)) * pow2(1074)) by (nonlinear_arith)
                    requires
                        pow2(e as nat) == pow2(u) * pow2(1074),
                ;
                lemma_div_by_multiple((s * pow2(u)) as int, pow2(1074) as int);
                lemma_pow2_adds(53, 10);
                assert(s * pow2(u) < pow2(53) * pow2(10)) by (nonlinear_arith)
                    requires
                        s < pow2(53),
                        0 < pow2(u) <= pow2(10),
                ;
                lemma_u64_shl_is_mul(s, up);
            }
            s << up
        } else {
            let down: u64 = (1074 - e) as u64;
            proof {
                scaled_quotient(s as int, e as nat, 1074);
                lemma_pow2_pos(down as nat);
                lemma_div_is_ordered_by_denominator(s as int, 1, pow2(down as nat) as int);
            }
            if down >= 64 {
                proof {
                    lemma_pow2_strictly_increases(53, down as nat);
                    lemma_basic_div(s as int, pow2(down as nat) as int);
                }
                0
            } else {
                proof {
                    lemma_u64_shr_is_div(s, down);
                }
                s >> down
            }
        }
    }

    /// The number without its fraction, held to the range of an `i64`.
    pub fn truncated(self) -> (r: i64)
        requires
            self.finite(),
        ensures
            r == truncated_of(self.value()),
    {
        let whole: u64 = self.whole_part();
        proof {
            lemma_pow2_pos(1074);
            lemma_basic_div(0, one() as int);
            assert(self.absolute() >= 0) by {
                if self.magnitude() > 0 {
                    absolute_increases(0, self.magnitude());
                } else {
                    assert(0 * pow2(0) == 0) by (nonlinear_arith);
                }
            }
        }
        if self.is_negative() {
            if whole >= SIGN_BIT {
                i64::MIN
            } else {
                -(whole as i64)
            }
        } else if whole >= SIGN_BIT {
            i64::MAX
        } else {
            whole as i64
        }
    }

    /// The color channel nearest to the number.
    pub fn channel(self) -> (r: u8)
        requires
            self.finite(),
        ensures
            r == channel_of(self.value()),
    {
        let (s, e) = self.parts();
        proof {
            lemma2_to64();
            lemma2_to64_rest();
            lemma_pow2_pos(1074);
            lemma_pow2_adds(1, 1074);
            lemma_pow2_pos(e as nat);
            assert(s * pow2(e as nat) >= 0) by (nonlinear_arith)
                requires
                    s >= 0,
                    pow2(e as nat) > 0,
            ;
        }
        if self.is_negative() {
            proof {
                if self.value() == 0 {
                    lemma_basic_div(one() as int, 2 * one() as int);
                }
            }
            return 0;
        }
        if e >= 1030 {
            proof {
                lemma_pow2_adds(52, e as nat);
                if e > 1030 {
                    lemma_pow2_strictly_increases(1030, e as nat);
                }
                lemma_pow2_adds(52, 1030);
                lemma_pow2_adds(8, 1074);
                assert(s * pow2(e as nat) >= pow2(52) * pow2(1030)) by (nonlinear_arith)
                    requires
                        s >= pow2(52),
                        pow2(e as nat) >= pow2(1030),
                ;
                lemma_div_is_ordered(
                    (2 * one()) as int * 256,
                    2 * self.value() + one(),
                    2 * one() as int,
                );
                lemma_div_multiples_vanish(256, 2 * one() as int);
            }
            return 255;
        }
        let t: u64 = (1074 - e) as u64;
        proof {
            let h = pow2((t - 1) as nat);
            lemma_pow2_adds((t - 1) as nat, (e + 1) as nat);
            lemma_pow2_adds(1, e as nat);
            let v = self.value();
            assert((s + h) * pow2((e + 1) as nat) == 2 * v + one()) by (nonlinear_arith)
                requires
                    v == s * pow2(e as nat),
                    pow2((e + 1) as nat) == 2 * pow2(e as nat),
                    h * pow2((e + 1) as nat) == one(),
            ;
            scaled_quotient(s + h, (e + 1) as nat, 1075);
            lemma_pow2_adds(1, (t - 1) as nat);
        }
        if t >= 64 {
            proof {
                lemma_pow2_strictly_increases(53, (t - 1) as nat);
                lemma_basic_div(s + pow2((t - 1) as nat), pow2(t as nat) as int);
            }
            return 0;
        }
        let shift: u64 = t - 1;
        proof {
            lemma_u64_pow2_no_overflow(shift as nat);
            lemma_u64_shl_is_mul(1, shift);
            if shift < 62 {
                lemma_pow2_strictly_increases(shift as nat, 62);
            }
        }
        let half: u64 = 1u64 << shift;
        proof {
            lemma_u64_shr_is_div((s + half) as u64, t);
        }
        let whole: u64 = (s + half) >> t;
        if whole > 255 {
            255
        } else {
            whole as u8
        }
    }
}

/// Rounding does not carry a value beyond a power of two that it is below.
pub proof fn rounded_within(v: int, e: int, k: nat)
    requires
        k >= e,
        -pow2((k - e) as nat) < v < pow2((k - e) as nat),
    ensures
        -pow2(k) <= rounded_at(v, e) <= pow2(k),
{
    let n: nat = if v < 0 {
        (-v) as nat
    } else {
        v as nat
    };
    digits_below(n, (k - e) as nat);
    rounding::nearest_at_most(n, e, k);
}

/// A greater value is not rounded to a smaller one.
pub proof fn rounded_increases(v: int, w: int, e: int)
    requires
        v <= w,
    ensures
        rounded_at(v, e) <= rounded_at(w, e),
{
    rounding::nearest_zero(e);
    if v >= 0 {
        rounding::nearest_increases(v as nat, w as nat, e);
    } else if w < 0 {
        rounding::nearest_increases((-w) as nat, (-v) as nat, e);
    }
}

/// A small whole number of units of `2^k` is its own nearest number.
pub proof fn rounded_whole(n: int, k: nat)
    requires
        -pow2(53) < n < pow2(53),
    ensures
        rounded(n * pow2(k)) == n * pow2(k),
{
    let a: nat = if n < 0 {
        (-n) as nat
    } else {
        n as nat
    };
    digits_below(a, 53);
    rounding::nearest_exact(a, k);
    rounded_scaled(n, k, 0);
    rounding::nearest_zero(k as int);
    assert((-n) * pow2(k) == -(n * pow2(k))) by (nonlinear_arith);
}

/// `n` tenths, as the nearest double precision number.
pub open spec fn tenths_of(n: int) -> int {
    rounding::nearest_quotient((n * one()) as nat, 10) as int
}

/// `n` tenths.
pub fn tenths(n: u16) -> (r: Binary64)
    requires
        0 < n <= 15,
    ensures
        r.finite(),
        r.value() == tenths_of(n as int),
        0 < r.value() <= 2 * one(),
{
    proof {
        lemma2_to64();
        lemma_pow2_adds(5, 1074);
        lemma_pow2_strictly_increases(1079, 1500);
        lemma_pow2_pos(1074);
    }
    let whole: Binary64 = Binary64::whole(n);
    let r: Binary64 = whole.divided_by(10);
    proof {
        let v = whole.value() as nat;
        let x = v / 10;
        lemma_pow2_adds(4, 1070);
        lemma_pow2_adds(1, 1074);
        lemma_pow2_strictly_increases(52, 1070);
        lemma_pow2_strictly_increases(53, 1070);
        assert(x >= pow2(1070)) by {
            lemma_div_is_ordered((10 * pow2(1070)) as int, v as int, 10);
            lemma_div_multiples_vanish(pow2(1070) as int, 10);
        }
        let l = rounding::bit_length(x);
        rounding::bit_length_bounds(x);
        if l < 1071 {
            if l < 1070 {
                lemma_pow2_strictly_increases(l, 1070);
            }
        }
        assert(x < 2 * one()) by {
            lemma_multiply_divide_lt(v as int, 10, (2 * one()) as int);
        }
        digits_below(x, 1075);
        rounding::nearest_quotient_bounds(v, 10);
        if l < 1075 {
            lemma_pow2_strictly_increases(l, 1075);
        }
        if l > 1071 {
            lemma_pow2_strictly_increases(1070, (l - 1) as nat);
        }
    }
    r
}

/// A number of at least `2^(k + 52)` is a multiple of `2^k`.
pub proof fn multiple_of_power(m: int, k: nat) -> (j: int)
    requires
        0 <= m,
        absolute_of(m) >= pow2(k + 52),
    ensures
        j >= 0,
        absolute_of(m) == j * pow2(k),
{
    let (s, e) = (significand_of(m), scale_of(m));
    lemma2_to64_rest();
    assert(s * pow2(e) == absolute_of(m));
    assert(0 <= s < 2 * EXPONENT_STEP);
    if e < k {
        lemma_pow2_adds(53, e);
        lemma_pow2_pos(e);
        assert(s * pow2(e) < pow2(53) * pow2(e)) by (nonlinear_arith)
            requires
                s < pow2(53),
                pow2(e) > 0,
        ;
        if 53 + e < k + 52 {
            lemma_pow2_strictly_increases(53 + e, k + 52);
        }
    }
    let u = (e - k) as nat;
    lemma_pow2_adds(u, k);
    lemma_pow2_pos(u);
    let j = s * pow2(u);
    assert(j >= 0 && j * pow2(k) == s * pow2(e)) by (nonlinear_arith)
        requires
            j == s * pow2(u),
            s >= 0,
            pow2(u) > 0,
            pow2(e) == pow2(u) * pow2(k),
    ;
    j
}

/// A greater value does not have a smaller channel.
pub proof fn channel_increases(v: int, w: int)
    requires
        v <= w,
    ensures
        0 <= channel_of(v) <= channel_of(w) <= 255,
{
    lemma_pow2_pos(1074);
    let d = 2 * one() as int;
    lemma_div_is_ordered(2 * v + one(), 2 * w + one(), d);
    if w >= 0 {
        lemma_div_pos_is_pos(2 * w + one(), d);
    }
    if v >= 0 {
        lemma_div_pos_is_pos(2 * v + one(), d);
    }
}

/// The channel of a whole number is that number.
pub proof fn channel_of_whole(n: u8)
    ensures
        channel_of(n * one()) == n,
{
    lemma_pow2_pos(1074);
    let u = one() as int;
    assert(n * u >= 0) by (nonlinear_arith)
        requires
            u > 0,
    ;
    assert(2 * (n * u) + u == n * (2 * u) + u) by (nonlinear_arith);
    lemma_fundamental_div_mod_converse(2 * (n * u) + u, 2 * u, n as int, u);
}

/// No double precision number that is not below 0 is nearer to `n * 2^-k` than the one that it is
/// rounded to.
proof fn nearest_of_positive(n: nat, k: nat, x: Binary64)
    ensures
        rounding::apart((rounding::nearest(n, -k) * pow2(k)) as int, n as int) <= rounding::apart(
            x.absolute() * pow2(k),
            n as int,
        ),
        rounding::apart((rounding::nearest(n, -k) * pow2(k)) as int, n as int) <= n,
{
    let q = rounding::spacing(n, -k);
    let (one, scale) = (pow2(q), pow2(k));
    let unit = pow2(q + k);
    lemma_pow2_adds(q, k);
    lemma_pow2_pos(q + k);
    let h = rounding::half_even(n, unit);
    assert((h * one) * scale == h * unit) by (nonlinear_arith)
        requires
            unit == one * scale,
    ;
    rounding::half_even_is_nearest(n, unit, 0);
    assert(0 * unit == 0) by (nonlinear_arith);
    let y = x.absolute();
    if q == 0 {
        lemma2_to64();
        rounding::half_even_is_nearest(n, unit, y);
    } else {
        rounding::bit_length_bounds(n);
        lemma_pow2_adds(52, q);
        lemma_pow2_adds(52, q + k);
        let edge = pow2(52) as int;
        if y >= pow2(q + 52) {
            let j = multiple_of_power(x.magnitude(), q);
            assert((j * one) * scale == j * unit) by (nonlinear_arith)
                requires
                    unit == one * scale,
            ;
            rounding::half_even_is_nearest(n, unit, j);
        } else {
            rounding::half_even_is_nearest(n, unit, edge);
            assert(y * scale <= edge * unit) by (nonlinear_arith)
                requires
                    y <= edge * one,
                    unit == one * scale,
                    scale >= 0,
            ;
        }
    }
}

/// Rounding finds the nearest number: no double precision number is nearer to `v * 2^-k` than the
/// one that it is rounded to.
pub proof fn rounded_is_nearest(v: int, k: nat, x: Binary64)
    ensures
        rounding::apart(rounded_at(v, -k) * pow2(k), v) <= rounding::apart(x.value() * pow2(k), v),
{
    let n: nat = if v < 0 {
        (-v) as nat
    } else {
        v as nat
    };
    nearest_of_positive(n, k, x);
    let scale = pow2(k) as int;
    let (r, y) = (rounding::nearest(n, -k) as int, x.absolute());
    assert((-r) * scale == -(r * scale) && (-y) * scale == -(y * scale)) by (nonlinear_arith);
    if x.magnitude() > 0 {
        absolute_increases(0, x.magnitude());
    } else {
        assert(0 * pow2(0) == 0) by (nonlinear_arith);
    }
    assert(y * scale >= 0) by (nonlinear_arith)
        requires
            y >= 0,
            scale >= 0,
    ;
}

/// A quotient is rounded to the nearest number: no double precision number is nearer to `n / d`
/// than the one that it is rounded to.
pub proof fn quotient_is_nearest(n: nat, d: nat, x: Binary64)
    requires
        d > 0,
    ensures
        rounding::apart((rounding::nearest_quotient(n, d) * d) as int, n as int)
            <= rounding::apart(x.absolute() * d, n as int),
{
    let whole = n / d;
    let q = rounding::spacing(whole, 0);
    let one = pow2(q);
    let unit = d * one;
    lemma_pow2_pos(q);
    assert(unit > 0) by (nonlinear_arith)
        requires
            unit == d * one,
            d > 0,
            one > 0,
    ;
    let h = rounding::half_even(n, unit);
    assert((h * one) * d == h * unit) by (nonlinear_arith)
        requires
            unit == d * one,
    ;
    let y = x.absolute();
    if q == 0 {
        lemma2_to64();
        rounding::half_even_is_nearest(n, unit, y);
    } else {
        rounding::bit_length_bounds(whole);
        lemma_pow2_adds(52, q);
        let edge = pow2(52) as int;
        if y >= pow2(q + 52) {
            let j = multiple_of_power(x.magnitude(), q);
            assert((j * one) * d == j * unit) by (nonlinear_arith)
                requires
                    unit == d * one,
            ;
            rounding::half_even_is_nearest(n, unit, j);
        } else {
            rounding::half_even_is_nearest(n, unit, edge);
            lemma_fundamental_div_mod(n as int, d as int);
            lemma_mod_bound(n as int, d as int);
            assert(y * d <= edge * unit && edge * unit <= d * whole) by (nonlinear_arith)
                requires
                    y <= edge * one,
                    edge * one <= whole,
                    unit == d * one,
                    d > 0,
            ;
        }
    }
}

/// A number of at least one has a half without rounding.
pub proof fn exact_half(x: Binary64)
    requires
        x.finite(),
        x.value() >= one(),
    ensures
        2 * rounding::nearest_quotient(x.value() as nat, 2) == x.value(),
{
    let m = x.magnitude();
    let (s, e) = (significand_of(m) as nat, scale_of(m));
    lemma2_to64();
    lemma2_to64_rest();
    digits_below(s, 53);
    if e == 0 {
        lemma_pow2_strictly_increases(53, 1074);
        assert(s * 1 == s);
    }
    let down = (e - 1) as nat;
    lemma_pow2_adds(1, down);
    rounding::nearest_quotient_exact(s, down, 2);
    let p = pow2(down);
    assert((s * 2) * p == s * (2 * p) && 2 * (s * p) == s * (2 * p)) by (nonlinear_arith);
}

/// What is finite is a number.
pub proof fn finite_is_number(x: Binary64)
    requires
        x.finite(),
    ensures
        x.number(),
{
    lemma_fundamental_div_mod(x.magnitude(), EXPONENT_STEP as int);
}

/// A number from 0 to a finite one is finite.
pub proof fn below_finite_is_finite(x: Binary64, y: Binary64)
    requires
        y.finite(),
        0 <= x.value() <= y.value(),
    ensures
        x.finite(),
{
    key_orders(x, y);
    let zero = Binary64 { bits: 0 };
    assert(absolute_of(0) == 0) by (nonlinear_arith)
        requires
            absolute_of(0) == 0 * pow2(0),
    ;
    key_orders(zero, x);
    key_orders(zero, y);
    lemma_div_is_ordered(x.magnitude(), y.magnitude(), EXPONENT_STEP as int);
}

/// A value that is greater by at most one has a channel that is greater by at most one.
pub proof fn channel_is_steady(v: int, w: int)
    requires
        v <= w <= v + one(),
    ensures
        channel_of(v) <= channel_of(w) <= channel_of(v) + 1,
{
    channel_increases(v, w);
    lemma_pow2_pos(1074);
    let u = one() as int;
    let d = 2 * u;
    if v >= 0 {
        lemma_div_is_ordered(2 * w + u, 2 * v + u + d, d);
        lemma_div_plus_one(2 * v + u, d);
        lemma_div_pos_is_pos(2 * v + u, d);
    } else if w >= 0 {
        lemma_div_is_ordered(2 * w + u, d + u, d);
        lemma_fundamental_div_mod_converse(d + u, d, 1, u);
    }
}

/// The encoding of the bound below which sums and products stay finite.
proof fn bound_is_encoded()
    ensures
        absolute_of(1449 * EXPONENT_STEP) == pow2(1500),
{
    lemma2_to64_rest();
    absolute_of_parts(EXPONENT_STEP as int, 1448);
    lemma_pow2_adds(52, 1448);
}

impl Binary64 {
    /// Whether the encoding stands for a number that sums and products can be made of.
    pub fn is_bounded(self) -> (r: bool)
        ensures
            r == (self.finite() && bounded(self.value())),
    {
        let low: u64 = self.low_bits();
        let bound: u64 = 1449 * EXPONENT_STEP;
        proof {
            let (m, n) = (self.magnitude(), bound as int);
            bound_is_encoded();
            lemma_pow2_pos(1500);
            if m < n {
                absolute_increases(m, n);
                lemma_multiply_divide_lt(m, EXPONENT_STEP as int, 1449);
            } else if n < m {
                absolute_increases(n, m);
            }
        }
        low < bound
    }
}

/// Five tenths are one half.
pub proof fn half_is_five_tenths()
    ensures
        tenths_of(5) == pow2(1073),
{
    lemma2_to64();
    lemma_pow2_adds(1, 1073);
    rounding::bit_length_is(1, 1);
    rounding::nearest_quotient_exact(1, 1073, 10);
    let half = pow2(1073);
    assert((1 * 10) * half == 5 * one()) by (nonlinear_arith)
        requires
            one() == 2 * half,
    ;
}

/// A quotient by two is rounded like the product with one half.
pub proof fn halved_is_rounded_half(n: nat)
    ensures
        rounded_at(n as int, -1) == rounding::nearest_quotient(n, 2),
{
    let q = rounding::spacing(n, -1);
    lemma2_to64();
    lemma_pow2_adds(1, q);
    lemma_basic_div(0, 2);
    assert(q == rounding::spacing(n / 2, 0));
    assert((q - (-1)) as nat == q + 1);
}

} // verus!
