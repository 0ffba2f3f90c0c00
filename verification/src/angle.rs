//! Hue angles, in degrees.
use vstd::arithmetic::div_mod::*;
use vstd::arithmetic::power2::*;
use vstd::prelude::*;

use crate::binary64;
use crate::binary64::Binary64;
use crate::rounding;

verus! {

/// A number of degrees, counted as the values of double precision numbers are.
pub open spec fn degrees(n: int) -> int {
    n * binary64::one()
}

/// A hue: a number from 0 to 360.
pub open spec fn is_hue(x: Binary64) -> bool {
    &&& x.finite()
    &&& 0 <= x.value() <= degrees(360)
}

/// Whether a number is a hue.
pub fn check_hue(x: Binary64) -> (r: bool)
    ensures
        r == is_hue(x),
{
    proof {
        assert(0 * binary64::one() == 0) by (nonlinear_arith);
    }
    x.is_finite() && x.at_least(Binary64::whole(0)) && Binary64::whole(360).at_least(x)
}

/// The shortest way round the circle between two hues.
pub open spec fn difference_of(a: int, b: int) -> int {
    let apart = binary64::rounded(a - b);
    let past = binary64::rounded((if apart < 0 {
        -apart
    } else {
        apart
    }) - degrees(180));
    binary64::rounded(degrees(180) - (if past < 0 {
        -past
    } else {
        past
    }))
}

/// The bounds of the angles that are dealt with here.
pub proof fn degrees_are_small()
    ensures
        degrees(512) == pow2(1083),
        degrees(1024) == pow2(1084),
        pow2(1084) < pow2(1500),
        pow2(1083) < pow2(1084),
        degrees(1) == binary64::one(),
        binary64::one() > 0,
{
    lemma2_to64();
    lemma_pow2_adds(9, 1074);
    lemma_pow2_adds(10, 1074);
    lemma_pow2_strictly_increases(1084, 1500);
    lemma_pow2_strictly_increases(1083, 1084);
    lemma_pow2_pos(1074);
}

/// The shortest way round the circle is between 0 and 180 degrees.
pub proof fn difference_range(a: int, b: int)
    requires
        0 <= a <= degrees(360),
        0 <= b <= degrees(360),
    ensures
        0 <= difference_of(a, b) <= degrees(180),
        -degrees(360) <= binary64::rounded(a - b) <= degrees(360),
        ({
            let apart = binary64::rounded(a - b);
            let far = if apart < 0 {
                -apart
            } else {
                apart
            };
            -degrees(180) <= binary64::rounded(far - degrees(180)) <= degrees(180)
        }),
{
    lemma2_to64_rest();
    degrees_are_small();
    binary64::rounded_whole(360, 1074);
    binary64::rounded_whole(-360, 1074);
    binary64::rounded_whole(180, 1074);
    binary64::rounded_whole(-180, 1074);
    binary64::rounded_whole(0, 1074);
    binary64::rounded_increases(a - b, degrees(360), 0);
    binary64::rounded_increases(-degrees(360), a - b, 0);
    let apart = binary64::rounded(a - b);
    let far = if apart < 0 {
        -apart
    } else {
        apart
    };
    binary64::rounded_increases(far - degrees(180), degrees(180), 0);
    binary64::rounded_increases(-degrees(180), far - degrees(180), 0);
    let past = binary64::rounded(far - degrees(180));
    let near = if past < 0 {
        -past
    } else {
        past
    };
    binary64::rounded_increases(degrees(180) - near, degrees(180), 0);
    binary64::rounded_increases(0, degrees(180) - near, 0);
}

/// The shortest way round the circle between two hues, in degrees.
pub fn difference_degrees(a: Binary64, b: Binary64) -> (r: Binary64)
    requires
        is_hue(a),
        is_hue(b),
    ensures
        r.finite(),
        r.value() == difference_of(a.value(), b.value()),
        0 <= r.value() <= degrees(180),
{
    proof {
        difference_range(a.value(), b.value());
        degrees_are_small();
    }
    let half: Binary64 = Binary64::whole(180);
    let apart: Binary64 = a.minus(b).abs();
    let past: Binary64 = apart.minus(half).abs();
    half.minus(past)
}

/// An angle brought into the circle, from at most once around it on either side.
pub open spec fn sanitized_of(v: int) -> int {
    if v < 0 {
        binary64::rounded(v + degrees(360))
    } else {
        v % degrees(360)
    }
}

/// An angle brought into the circle.
pub fn sanitize_degrees(x: Binary64) -> (r: Binary64)
    requires
        x.finite(),
        -degrees(360) <= x.value() < degrees(720),
    ensures
        r.finite(),
        r.value() == sanitized_of(x.value()),
        0 <= r.value() <= degrees(360),
{
    proof {
        degrees_are_small();
        lemma2_to64();
        lemma2_to64_rest();
        binary64::rounded_whole(0, 1074);
        binary64::rounded_whole(360, 1074);
        assert(0 * binary64::one() == 0) by (nonlinear_arith);
    }
    let full: Binary64 = Binary64::whole(360);
    if !x.at_least(Binary64::whole(0)) {
        proof {
            binary64::rounded_increases(0, x.value() + degrees(360), 0);
            binary64::rounded_increases(x.value() + degrees(360), degrees(360), 0);
        }
        return x.plus(full);
    }
    if x.at_least(full) {
        proof {
            // both are multiples of 2^1030, and so is their difference, which has few digits
            lemma_pow2_adds(8, 1074);
            lemma_pow2_adds(44, 1030);
            let p = pow2(1030) as int;
            let j = binary64::multiple_of_power(x.magnitude(), 1030);
            assert(x.negative() ==> x.absolute() <= 0);
            let w: int = j - 360 * pow2(44);
            assert(x.value() - degrees(360) == w * p) by (nonlinear_arith)
                requires
                    degrees(360) == 360 * (pow2(44) * p),
                    x.value() == j * p,
                    w == j - 360 * pow2(44),
            ;
            lemma_pow2_pos(1030);
            assert(0 <= w < 360 * pow2(44)) by (nonlinear_arith)
                requires
                    0 <= w * p < 360 * (pow2(44) * p),
                    p > 0,
            ;
            binary64::rounded_whole(w, 1030);
            lemma_fundamental_div_mod_converse(
                x.value(),
                degrees(360),
                1,
                x.value() - degrees(360),
            );
        }
        x.minus(full)
    } else {
        proof {
            lemma_small_mod(x.value() as nat, degrees(360) as nat);
        }
        x
    }
}

/// The shorter way from one hue to the other leads to higher angles.
pub open spec fn turns_forward(from: int, to: int) -> bool {
    sanitized_of(binary64::rounded(to - from)) <= degrees(180)
}

/// Whether the shorter way from one hue to the other leads to higher angles.
pub fn rotates_forward(from: Binary64, to: Binary64) -> (r: bool)
    requires
        is_hue(from),
        is_hue(to),
    ensures
        r == turns_forward(from.value(), to.value()),
{
    proof {
        degrees_are_small();
        difference_range(to.value(), from.value());
    }
    Binary64::whole(180).at_least(sanitize_degrees(to.minus(from)))
}

/// A hue turned towards another by a fraction of the way between them.
pub open spec fn dragged_of(source: int, target: int, amount: int) -> int {
    let way = difference_of(source, target);
    let turn = if turns_forward(source, target) {
        amount
    } else {
        -amount
    };
    sanitized_of(binary64::rounded_at(way * turn + source * binary64::one(), -1074))
}

/// Turns the source hue towards the target hue by the fraction `amount` of the way.
pub fn drag_hue(source_hue: Binary64, target_hue: Binary64, amount: Binary64) -> (r: Binary64)
    requires
        is_hue(source_hue),
        is_hue(target_hue),
        amount.finite(),
        0 <= amount.value() <= binary64::one(),
    ensures
        r.finite(),
        r.value() == dragged_of(source_hue.value(), target_hue.value(), amount.value()),
        0 <= r.value() <= degrees(360),
{
    proof {
        degrees_are_small();
    }
    let way: Binary64 = difference_degrees(source_hue, target_hue);
    let turn: Binary64 = if rotates_forward(source_hue, target_hue) {
        amount
    } else {
        amount.negated()
    };
    proof {
        let u = binary64::one() as int;
        let (w, t, s) = (way.value(), turn.value(), source_hue.value());
        let total = w * t + s * u;
        assert(-(180 * u) * u <= total <= (540 * u) * u) by (nonlinear_arith)
            requires
                0 <= w <= 180 * u,
                -u <= t <= u,
                0 <= s <= 360 * u,
                total == w * t + s * u,
                u > 0,
        ;
        lemma2_to64_rest();
        binary64::rounded_increases(-(180 * u) * u, total, -1074);
        binary64::rounded_increases(total, (540 * u) * u, -1074);
        binary64::rounded_scaled(-(180 * u), 1074, -1074);
        binary64::rounded_scaled(540 * u, 1074, -1074);
        binary64::rounded_whole(-180, 1074);
        binary64::rounded_whole(540, 1074);
        assert(-(180 * u) == -180 * u);
    }
    sanitize_degrees(way.mul_add(turn, source_hue))
}

/// The way from one hue to another is as long as the way back.
pub proof fn difference_is_symmetric(a: int, b: int)
    ensures
        difference_of(a, b) == difference_of(b, a),
{
    rounding::nearest_zero(0);
}

/// There is no way from a hue to itself.
pub proof fn difference_to_itself_is_zero(a: int)
    ensures
        difference_of(a, a) == 0,
{
    degrees_are_small();
    lemma2_to64_rest();
    rounding::nearest_zero(0);
    binary64::rounded_whole(-180, 1074);
}

} // verus!
