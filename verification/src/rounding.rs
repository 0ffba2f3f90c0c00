//! Rounding to double precision: to the nearest number, ties to the even significand.
use vstd::arithmetic::div_mod::*;
use vstd::arithmetic::mul::*;
use vstd::arithmetic::power2::*;
use vstd::bits::*;
use vstd::prelude::*;

verus! {

/// The number of binary digits of `n`.
pub open spec fn bit_length(n: nat) -> nat
    decreases n,
{
    if n == 0 {
        0
    } else {
        1 + bit_length(n / 2)
    }
}

/// The integer nearest to `n / d`; of two equally near, the even one.
pub open spec fn half_even(n: nat, d: nat) -> nat {
    let down = n / d;
    let rest = n % d;
    if 2 * rest < d {
        down
    } else if 2 * rest > d {
        down + 1
    } else {
        down + down % 2
    }
}

/// The power of two that divides the double precision numbers around `n * 2^e`, where 53 binary
/// digits are kept and nothing below `2^0` can be held.
pub open spec fn spacing(n: nat, e: int) -> nat {
    if bit_length(n) + e <= 53 {
        0
    } else {
        (bit_length(n) + e - 53) as nat
    }
}

/// The double precision number nearest to `n * 2^e`, ties to even.
pub open spec fn nearest(n: nat, e: int) -> nat {
    let q = spacing(n, e);
    if q >= e {
        half_even(n, pow2((q - e) as nat)) * pow2(q)
    } else {
        (n * pow2((e - q) as nat)) * pow2(q)
    }
}

/// `n` lies between the two powers of two that its number of digits gives.
pub proof fn bit_length_bounds(n: nat)
    ensures
        n < pow2(bit_length(n)),
        n > 0 ==> bit_length(n) > 0 && pow2((bit_length(n) - 1) as nat) <= n,
    decreases n,
{
    lemma2_to64();
    if n > 0 {
        bit_length_bounds(n / 2);
        let l = bit_length(n / 2);
        lemma_pow2_adds(1, l);
        if n / 2 > 0 {
            lemma_pow2_adds(1, (l - 1) as nat);
        }
    }
}

/// The number of digits is the only one whose powers of two enclose `n`.
pub proof fn bit_length_is(n: nat, l: nat)
    requires
        n < pow2(l),
        l > 0 ==> pow2((l - 1) as nat) <= n,
    ensures
        bit_length(n) == l,
{
    lemma2_to64();
    bit_length_bounds(n);
    let b = bit_length(n);
    if n > 0 {
        if b < l {
            if b < l - 1 {
                lemma_pow2_strictly_increases(b, (l - 1) as nat);
            }
        }
        if l < b {
            if l < b - 1 {
                lemma_pow2_strictly_increases(l, (b - 1) as nat);
            }
        }
    } else if l > 0 {
        lemma_pow2_pos((l - 1) as nat);
    }
}

/// Scaling by a power of two adds digits.
pub proof fn bit_length_scaled(n: nat, j: nat)
    requires
        n > 0,
    ensures
        bit_length(n * pow2(j)) == bit_length(n) + j,
{
    bit_length_bounds(n);
    let l = bit_length(n);
    lemma_pow2_adds(l, j);
    lemma_pow2_adds((l - 1) as nat, j);
    lemma_pow2_pos(j);
    let (p, lo, hi) = (pow2(j), pow2((l - 1) as nat), pow2(l));
    assert(n * p < hi * p && lo * p <= n * p) by (nonlinear_arith)
        requires
            lo <= n < hi,
            p > 0,
    ;
    bit_length_is(n * p, (l + j) as nat);
}

/// Rounding of a quotient does not see a common factor.
pub proof fn half_even_scaled(n: nat, d: nat, c: nat)
    requires
        d > 0,
        c > 0,
    ensures
        half_even(n * c, d * c) == half_even(n, d),
{
    let (down, rest) = (n / d, n % d);
    lemma_fundamental_div_mod(n as int, d as int);
    assert(n * c == down * (d * c) + rest * c) by (nonlinear_arith)
        requires
            n == d * down + rest,
    ;
    assert(0 <= rest * c < d * c) by (nonlinear_arith)
        requires
            0 <= rest < d,
            c > 0,
    ;
    lemma_fundamental_div_mod_converse(
        (n * c) as int,
        (d * c) as int,
        down as int,
        (rest * c) as int,
    );
    assert((2 * rest < d) == (2 * (rest * c) < d * c)) by (nonlinear_arith)
        requires
            c > 0,
    ;
    assert((2 * rest > d) == (2 * (rest * c) > d * c)) by (nonlinear_arith)
        requires
            c > 0,
    ;
}

/// A multiple of the divisor is rounded to its quotient.
pub proof fn half_even_exact(q: nat, d: nat)
    requires
        d > 0,
    ensures
        half_even(q * d, d) == q,
{
    lemma_fundamental_div_mod_converse((q * d) as int, d as int, q as int, 0);
}

/// The nearest number depends on the number alone, not on how it is written.
pub proof fn nearest_scaled(n: nat, j: nat, e: int)
    requires
        n > 0,
    ensures
        nearest(n * pow2(j), e) == nearest(n, e + j),
{
    bit_length_scaled(n, j);
    lemma_pow2_pos(j);
    let q = spacing(n, e + j);
    assert(spacing(n * pow2(j), e) == q);
    if q >= e + j {
        let d = (q - e - j) as nat;
        lemma_pow2_pos(d);
        lemma_pow2_adds(d, j);
        half_even_scaled(n, pow2(d), pow2(j));
    } else if q >= e {
        // q - e < j
        let s = (q - e) as nat;
        let u = (j - s) as nat;
        lemma_pow2_adds(u, s);
        lemma_pow2_pos(s);
        assert(n * pow2(j) == (n * pow2(u)) * pow2(s)) by (nonlinear_arith)
            requires
                pow2(j) == pow2(u) * pow2(s),
        ;
        half_even_exact(n * pow2(u), pow2(s));
    } else {
        let u = (e - q) as nat;
        lemma_pow2_adds(j, u);
        assert((n * pow2(j)) * pow2(u) == n * pow2((e + j - q) as nat)) by (nonlinear_arith)
            requires
                pow2((e + j - q) as nat) == pow2(j) * pow2(u),
        ;
    }
}

/// Zero is its own nearest number.
pub proof fn nearest_zero(e: int)
    ensures
        nearest(0, e) == 0,
{
    let q = spacing(0, e);
    assert(forall|x: nat| #[trigger] (0 * x) == 0) by (nonlinear_arith);
    if q >= e {
        let d = pow2((q - e) as nat);
        lemma_pow2_pos((q - e) as nat);
        lemma_small_mod(0, d);
        lemma_basic_div(0, d as int);
    }
}

/// A number of at most 53 digits is its own nearest number.
pub proof fn nearest_exact(n: nat, e: nat)
    requires
        bit_length(n) <= 53,
    ensures
        nearest(n, e as int) == n * pow2(e),
{
    let q = spacing(n, e as int);
    lemma2_to64();
    if q == e {
        half_even_exact(n, 1);
    } else {
        let u = (e - q) as nat;
        lemma_pow2_adds(u, q);
        assert((n * pow2(u)) * pow2(q) == n * pow2(e)) by (nonlinear_arith)
            requires
                pow2(e) == pow2(u) * pow2(q),
        ;
    }
}

/// Rounding a quotient changes it by less than one.
pub proof fn half_even_bounds(n: nat, d: nat)
    requires
        d > 0,
    ensures
        n / d <= half_even(n, d) <= n / d + 1,
        n % d == 0 ==> half_even(n, d) == n / d,
{
}

/// Rounding does not leave the powers of two between which a number lies.
pub proof fn nearest_at_most(n: nat, e: int, k: nat)
    requires
        bit_length(n) + e <= k,
    ensures
        nearest(n, e) <= pow2(k),
{
    let q = spacing(n, e);
    let l = bit_length(n);
    bit_length_bounds(n);
    lemma_pow2_pos(q);
    lemma_pow2_pos(k);
    lemma2_to64();
    if n == 0 {
        nearest_zero(e);
    } else if q >= e {
        let s = (q - e) as nat;
        let d = pow2(s);
        lemma_pow2_pos(s);
        half_even_bounds(n, d);
        // n / d + 1 <= 2^(l - s) where l >= s, and is at most 1 otherwise
        if l >= s {
            let u = (l - s) as nat;
            lemma_pow2_adds(u, s);
            lemma_multiply_divide_lt(n as int, d as int, pow2(u) as int);
            lemma_pow2_adds(u, q);
            assert(half_even(n, d) * pow2(q) <= pow2(u) * pow2(q)) by (nonlinear_arith)
                requires
                    half_even(n, d) <= pow2(u),
            ;
            if u + q < k {
                lemma_pow2_strictly_increases((u + q) as nat, k);
            }
        } else {
            assert(q == 0);
            lemma_pow2_strictly_increases(l, s);
            lemma_basic_div(n as int, d as int);
            assert(half_even(n, d) * 1 <= 1);
        }
    } else {
        let u = (e - q) as nat;
        lemma_pow2_adds(u, q);
        lemma_pow2_adds(l, e as nat);
        assert((n * pow2(u)) * pow2(q) <= pow2(l) * pow2(e as nat)) by (nonlinear_arith)
            requires
                n <= pow2(l),
                pow2(e as nat) == pow2(u) * pow2(q),
        ;
        if l + e < k {
            lemma_pow2_strictly_increases((l + e) as nat, k);
        }
    }
}

/// A part that is too small to matter: what is added to a number of 53 digits, or taken from it,
/// is lost where it is less than an eighth of the last digit.
pub proof fn nearest_absorbs(s: nat, e: nat, b: nat)
    requires
        pow2(52) <= s < pow2(53),
        e >= 3,
        b < pow2((e - 3) as nat),
    ensures
        nearest(s * pow2(e) + b, 0) == s * pow2(e),
        s * pow2(e) >= b,
        nearest((s * pow2(e) - b) as nat, 0) == s * pow2(e),
{
    let p = pow2(e);
    lemma2_to64();
    lemma2_to64_rest();
    lemma_pow2_pos(e);
    lemma_pow2_adds(3, (e - 3) as nat);
    lemma_pow2_adds(53, e);
    lemma_pow2_adds(52, e);
    assert(8 * b < p);
    assert(pow2(52) * p <= s * p && s * p + p <= pow2(53) * p) by (nonlinear_arith)
        requires
            pow2(52) <= s,
            s + 1 <= pow2(53),
            p > 0,
    ;
    assert(p <= s * p) by (nonlinear_arith)
        requires
            s >= 1,
            p > 0,
    ;
    let up = s * p + b;
    bit_length_is(up, (53 + e) as nat);
    lemma_fundamental_div_mod_converse(up as int, p as int, s as int, b as int);
    let down = (s * p - b) as nat;
    if b == 0 {
    } else if s > pow2(52) {
        assert(pow2(52) * p <= s * p - p) by (nonlinear_arith)
            requires
                pow2(52) + 1 <= s,
                p > 0,
        ;
        bit_length_is(down, (53 + e) as nat);
        assert(down == (s - 1) * p + (p - b)) by (nonlinear_arith)
            requires
                down == s * p - b,
        ;
        lemma_fundamental_div_mod_converse(down as int, p as int, s - 1, p - b);
    } else {
        let h = pow2((e - 1) as nat);
        lemma_pow2_adds(1, (e - 1) as nat);
        lemma_pow2_adds(53, (e - 1) as nat);
        lemma_pow2_adds(51, e);
        assert(pow2(52) * p - p >= pow2(51) * p) by (nonlinear_arith)
            requires
                pow2(52) >= pow2(51) + 1,
                p > 0,
        ;
        bit_length_is(down, (52 + e) as nat);
        assert(down == (pow2(53) - 1) * h + (h - b)) by (nonlinear_arith)
            requires
                down == pow2(52) * p - b,
                p == 2 * h,
                pow2(53) == 2 * pow2(52),
        ;
        lemma_fundamental_div_mod_converse(down as int, h as int, pow2(53) - 1, h - b);
        assert(pow2(53) * h == s * p) by (nonlinear_arith)
            requires
                s == pow2(52),
                p == 2 * h,
                pow2(53) == 2 * pow2(52),
        ;
    }
}

/// A remainder below the last of 55 or more digits decides the rounding by being there, not by its
/// size.
pub proof fn nearest_sticky(k: nat, t: nat, r: nat, e: int)
    requires
        bit_length(k) >= 55,
        0 < r < pow2(t),
    ensures
        nearest(k * pow2(t) + r, e - t) == nearest(2 * k + 1, e - 1),
{
    sticky_form(k, t, r, e);
    lemma2_to64();
    sticky_form(k, 1, 1, e);
}

/// What `nearest` makes of a number with a remainder below its last digits.
proof fn sticky_form(k: nat, t: nat, r: nat, e: int)
    requires
        bit_length(k) >= 55,
        0 < r < pow2(t),
    ensures
        nearest(k * pow2(t) + r, e - t) == ({
            let q = spacing(k, e);
            let u = (q - e) as nat;
            let down = k / pow2(u);
            if 2 * (k % pow2(u)) < pow2(u) {
                down * pow2(q)
            } else {
                (down + 1) * pow2(q)
            }
        }),
{
    let l = bit_length(k);
    let p = pow2(t);
    let n = k * p + r;
    bit_length_bounds(k);
    lemma_pow2_pos(t);
    lemma_pow2_adds(l, t);
    lemma_pow2_adds((l - 1) as nat, t);
    let (lo, hi) = (pow2((l - 1) as nat), pow2(l));
    assert(lo * p <= n < hi * p) by (nonlinear_arith)
        requires
            n == k * p + r,
            0 <= r < p,
            lo <= k,
            k + 1 <= hi,
    ;
    bit_length_is(n, (l + t) as nat);
    let q = spacing(k, e);
    assert(spacing(n, e - t) == q);
    let u = (q - e) as nat;
    assert(u >= 2);
    let d = pow2(u);
    lemma_pow2_pos(u);
    lemma_pow2_adds(u, t);
    let (down, rest) = (k / d, k % d);
    lemma_fundamental_div_mod(k as int, d as int);
    assert(n == down * (d * p) + (rest * p + r)) by (nonlinear_arith)
        requires
            n == k * p + r,
            k == d * down + rest,
    ;
    assert(0 <= rest * p + r < d * p) by (nonlinear_arith)
        requires
            0 <= rest,
            rest + 1 <= d,
            0 <= r < p,
    ;
    lemma_fundamental_div_mod_converse(
        n as int,
        (d * p) as int,
        down as int,
        (rest * p + r) as int,
    );
    // half of the divisor is whole, so the remainder cannot reach it from below
    let h = pow2((u - 1) as nat);
    lemma_pow2_adds(1, (u - 1) as nat);
    lemma2_to64();
    if 2 * rest < d {
        assert(2 * (rest * p + r) < d * p) by (nonlinear_arith)
            requires
                d == 2 * h,
                rest + 1 <= h,
                0 <= r < p,
        ;
    } else {
        assert(2 * (rest * p + r) > d * p) by (nonlinear_arith)
            requires
                d == 2 * h,
                rest >= h,
                0 < r < p,
        ;
    }
}

/// The number nearest to the quotient `n / d`, ties to even.
pub open spec fn nearest_quotient(n: nat, d: nat) -> nat {
    let q = spacing(n / d, 0);
    half_even(n, d * pow2(q)) * pow2(q)
}

/// Scaling the dividend by a power of two adds digits to the quotient.
pub proof fn quotient_scaled(n: nat, k: nat, d: nat)
    requires
        d > 0,
        n / d > 0,
    ensures
        bit_length((n * pow2(k)) / d) == bit_length(n / d) + k,
{
    let x = n / d;
    let l = bit_length(x);
    let p = pow2(k);
    bit_length_bounds(x);
    lemma_pow2_pos(k);
    lemma_pow2_adds(l, k);
    lemma_pow2_adds((l - 1) as nat, k);
    let (lo, hi) = (pow2((l - 1) as nat), pow2(l));
    lemma_fundamental_div_mod(n as int, d as int);
    assert(d * (lo * p) <= n * p && n * p < d * (hi * p)) by (nonlinear_arith)
        requires
            n == d * x + n % d,
            0 <= n % d < d,
            lo <= x,
            x + 1 <= hi,
            p > 0,
            d > 0,
    ;
    lemma_div_is_ordered((d * (lo * p)) as int, (n * p) as int, d as int);
    lemma_div_multiples_vanish((lo * p) as int, d as int);
    lemma_multiply_divide_lt((n * p) as int, d as int, (hi * p) as int);
    bit_length_is((n * p) / d, (l + k) as nat);
}

/// A greater number has no fewer digits.
pub proof fn bit_length_increases(a: nat, b: nat)
    requires
        a <= b,
    ensures
        bit_length(a) <= bit_length(b),
{
    bit_length_bounds(a);
    bit_length_bounds(b);
    let (la, lb) = (bit_length(a), bit_length(b));
    if lb < la {
        if lb < la - 1 {
            lemma_pow2_strictly_increases(lb, (la - 1) as nat);
        }
    }
}

/// A greater dividend is not rounded to a smaller quotient.
pub proof fn half_even_increases(a: nat, b: nat, d: nat)
    requires
        a <= b,
        d > 0,
    ensures
        half_even(a, d) <= half_even(b, d),
{
    lemma_fundamental_div_mod(a as int, d as int);
    lemma_fundamental_div_mod(b as int, d as int);
    lemma_div_is_ordered(a as int, b as int, d as int);
    half_even_bounds(a, d);
    half_even_bounds(b, d);
    if a / d == b / d {
        assert(a % d <= b % d);
    }
}

/// Rounding does not carry a number below the power of two that it has reached.
pub proof fn nearest_at_least(n: nat, e: int)
    requires
        n > 0,
        bit_length(n) + e > 53,
    ensures
        nearest(n, e) >= pow2((bit_length(n) + e - 1) as nat),
{
    let q = spacing(n, e);
    let l = bit_length(n);
    bit_length_bounds(n);
    let lo = pow2((l - 1) as nat);
    if q >= e {
        let s = (q - e) as nat;
        let d = pow2(s);
        lemma_pow2_pos(s);
        lemma_pow2_adds(52, s);
        half_even_increases(lo, n, d);
        half_even_exact(pow2(52), d);
        lemma_pow2_adds(52, q);
        lemma_pow2_pos(q);
        assert(half_even(n, d) * pow2(q) >= pow2(52) * pow2(q)) by (nonlinear_arith)
            requires
                half_even(n, d) >= pow2(52),
        ;
    } else {
        let u = (e - q) as nat;
        lemma_pow2_adds(u, q);
        lemma_pow2_adds((l - 1) as nat, e as nat);
        assert((n * pow2(u)) * pow2(q) >= lo * pow2(e as nat)) by (nonlinear_arith)
            requires
                n >= lo,
                pow2(e as nat) == pow2(u) * pow2(q),
        ;
    }
}

/// A greater number is not rounded to a smaller one.
pub proof fn nearest_increases(a: nat, b: nat, e: int)
    requires
        a <= b,
    ensures
        nearest(a, e) <= nearest(b, e),
{
    bit_length_increases(a, b);
    let (la, lb) = (bit_length(a), bit_length(b));
    let (qa, qb) = (spacing(a, e), spacing(b, e));
    if a == 0 {
        nearest_zero(e);
    } else if qa == qb {
        lemma_pow2_pos(qa);
        if qa >= e {
            let d = pow2((qa - e) as nat);
            lemma_pow2_pos((qa - e) as nat);
            half_even_increases(a, b, d);
            let (x, y, p) = (half_even(a, d), half_even(b, d), pow2(qa));
            assert(x * p <= y * p) by (nonlinear_arith)
                requires
                    x <= y,
            ;
        } else {
            let (u, p) = (pow2((e - qa) as nat), pow2(qa));
            assert((a * u) * p <= (b * u) * p) by (nonlinear_arith)
                requires
                    a <= b,
            ;
        }
    } else {
        nearest_at_least(b, e);
        let k = (lb + e - 1) as nat;
        nearest_at_most(a, e, k);
    }
}

/// A quotient of 53 digits or more is rounded within the powers of two between which it lies.
pub proof fn nearest_quotient_bounds(n: nat, d: nat)
    requires
        d > 0,
        bit_length(n / d) >= 53,
    ensures
        pow2((bit_length(n / d) - 1) as nat) <= nearest_quotient(n, d) <= pow2(bit_length(n / d)),
{
    let x = n / d;
    let l = bit_length(x);
    let q = spacing(x, 0);
    bit_length_bounds(x);
    let p = pow2(q);
    lemma_pow2_pos(q);
    lemma_pow2_adds(52, q);
    lemma_pow2_adds(53, q);
    lemma_div_denominator(n as int, d as int, p as int);
    assert(d * p > 0) by (nonlinear_arith)
        requires
            d > 0,
            p > 0,
    ;
    half_even_bounds(n, d * p);
    lemma_mul_is_commutative(p as int, pow2(52) as int);
    lemma_mul_is_commutative(p as int, pow2(53) as int);
    lemma_div_is_ordered((p * pow2(52)) as int, x as int, p as int);
    lemma_div_multiples_vanish(pow2(52) as int, p as int);
    lemma_multiply_divide_lt(x as int, p as int, pow2(53) as int);
    let r = half_even(n, d * p);
    assert(pow2(52) * p <= r * p <= pow2(53) * p) by (nonlinear_arith)
        requires
            pow2(52) <= r <= pow2(53),
    ;
}

/// Zero divided by anything is zero.
pub proof fn nearest_quotient_zero(d: nat)
    requires
        d > 0,
    ensures
        nearest_quotient(0, d) == 0,
{
    lemma2_to64();
    lemma_basic_div(0, d as int);
    lemma_small_mod(0, d);
    assert(d * 1 == d && 0 * 1 == 0);
}

/// A greater dividend is not rounded to a smaller quotient.
pub proof fn nearest_quotient_increases(a: nat, b: nat, d: nat)
    requires
        a <= b,
        d > 0,
    ensures
        nearest_quotient(a, d) <= nearest_quotient(b, d),
{
    let (x, y) = (a / d, b / d);
    lemma_div_is_ordered(a as int, b as int, d as int);
    bit_length_increases(x, y);
    let (qa, qb) = (spacing(x, 0), spacing(y, 0));
    if qa == qb {
        let p = pow2(qa);
        lemma_pow2_pos(qa);
        assert(d * p > 0) by (nonlinear_arith)
            requires
                d > 0,
                p > 0,
        ;
        half_even_increases(a, b, d * p);
        let (u, v) = (half_even(a, d * p), half_even(b, d * p));
        assert(u * p <= v * p) by (nonlinear_arith)
            requires
                u <= v,
        ;
    } else {
        nearest_quotient_bounds(b, d);
        if bit_length(x) >= 53 {
            nearest_quotient_bounds(a, d);
            if bit_length(x) < bit_length(y) - 1 {
                lemma_pow2_strictly_increases(bit_length(x), (bit_length(y) - 1) as nat);
            }
        } else {
            lemma2_to64();
            bit_length_bounds(x);
            assert(d * 1 == d);
            half_even_bounds(a, d);
            let u = half_even(a, d);
            assert(u * 1 == u);
            lemma_pow2_strictly_increases(bit_length(x), (bit_length(y) - 1) as nat);
        }
    }
}

/// A multiple of the divisor with few digits is divided exactly.
pub proof fn nearest_quotient_exact(n: nat, k: nat, d: nat)
    requires
        d > 0,
        bit_length(n) <= 53,
    ensures
        nearest_quotient((n * d) * pow2(k), d) == n * pow2(k),
{
    let v = n * pow2(k);
    assert((n * d) * pow2(k) == v * d) by (nonlinear_arith)
        requires
            v == n * pow2(k),
    ;
    lemma_div_by_multiple(v as int, d as int);
    let q = spacing(v, 0);
    let p = pow2(q);
    lemma_pow2_pos(q);
    assert(d * p > 0) by (nonlinear_arith)
        requires
            d > 0,
            p > 0,
    ;
    if n == 0 {
        assert(0 * pow2(k) == 0 && 0 * d == 0) by (nonlinear_arith);
        nearest_quotient_zero(d);
    } else {
        bit_length_scaled(n, k);
        assert(q <= k);
        let u = (k - q) as nat;
        lemma_pow2_adds(u, q);
        let w = n * pow2(u);
        assert(v == w * p) by (nonlinear_arith)
            requires
                v == n * pow2(k),
                w == n * pow2(u),
                pow2(k) == pow2(u) * p,
        ;
        assert(v * d == w * (d * p)) by (nonlinear_arith)
            requires
                v == w * p,
        ;
        half_even_exact(w, d * p);
    }
}

/// How far two integers are apart.
pub open spec fn apart(a: int, b: int) -> int {
    if a <= b {
        b - a
    } else {
        a - b
    }
}

/// No multiple of `d` is nearer to `n` than the one that it is rounded to.
pub proof fn half_even_is_nearest(n: nat, d: nat, j: int)
    requires
        d > 0,
    ensures
        apart((half_even(n, d) * d) as int, n as int) <= apart(j * d, n as int),
{
    let (a, r) = (n as int / d as int, n as int % d as int);
    lemma_fundamental_div_mod(n as int, d as int);
    lemma_mul_is_commutative(d as int, a);
    assert((a + 1) * d == a * d + d) by (nonlinear_arith);
    if j <= a {
        assert(j * d <= a * d) by (nonlinear_arith)
            requires
                j <= a,
                d > 0,
        ;
    } else {
        assert(j * d >= (a + 1) * d) by (nonlinear_arith)
            requires
                j >= a + 1,
                d > 0,
        ;
    }
}

} // verus!
