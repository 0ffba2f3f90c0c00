//! How the numbers of a scheme are rounded: every step of a computation gives the double precision
//! number nearest to its exact result.
use vstd::arithmetic::power2::*;
use vstd::prelude::*;

use crate::accents;
use crate::angle;
use crate::binary64;
use crate::binary64::Binary64;
use crate::color::{Hct, Hsl};
use crate::exactness;
use crate::grays;
use crate::harmonization;
use crate::nearness;
use crate::rounding;
use crate::single;

verus! {

/// No double precision number, taken `scale` times, is nearer to `v` than `r` is.
pub open spec fn is_nearest_to(r: int, scale: int, v: int) -> bool {
    forall|x: Binary64|
        rounding::apart(r * scale, v) <= rounding::apart(#[trigger] x.value() * scale, v)
}

/// A sum is rounded to the nearest number.
pub proof fn sum_is_nearest(v: int)
    ensures
        is_nearest_to(binary64::rounded(v), 1, v),
{
    lemma2_to64();
    assert forall|x: Binary64|
        rounding::apart(binary64::rounded(v) * 1, v) <= rounding::apart(
            #[trigger] x.value() * 1,
            v,
        ) by {
        binary64::rounded_is_nearest(v, 0, x);
    }
}

/// A product is rounded to the nearest number.
pub proof fn product_is_nearest(v: int)
    ensures
        is_nearest_to(binary64::rounded_at(v, -1074), binary64::one() as int, v),
{
    let u = binary64::one() as int;
    assert forall|x: Binary64|
        rounding::apart(binary64::rounded_at(v, -1074) * u, v) <= rounding::apart(
            #[trigger] x.value() * u,
            v,
        ) by {
        binary64::rounded_is_nearest(v, 1074, x);
    }
}

/// A quotient is rounded to the nearest number.
pub proof fn quotient_is_nearest(v: int, d: int)
    requires
        d > 0,
    ensures
        is_nearest_to(binary64::quotient_of(v, d), d, v),
{
    let n = nearness::size(v) as nat;
    let q = rounding::nearest_quotient(n, d as nat) as int;
    assert forall|x: Binary64|
        rounding::apart(binary64::quotient_of(v, d) * d, v) <= rounding::apart(
            #[trigger] x.value() * d,
            v,
        ) by {
        binary64::quotient_is_nearest(n, d as nat, x);
        let y = x.absolute();
        if x.magnitude() > 0 {
            binary64::absolute_increases(0, x.magnitude());
        } else {
            assert(0 * pow2(0) == 0) by (nonlinear_arith);
        }
        assert((-q) * d == -(q * d) && (-y) * d == -(y * d)) by (nonlinear_arith);
        assert(y * d >= 0) by (nonlinear_arith)
            requires
                y >= 0,
                d > 0,
        ;
    }
}

/// The tenths that shades and tones are made with are the numbers nearest to them.
pub proof fn tenths_are_nearest(n: int)
    requires
        0 < n <= 15,
    ensures
        is_nearest_to(binary64::tenths_of(n), 10, n * binary64::one()),
{
    let u = binary64::one() as int;
    assert(n * u >= 0) by (nonlinear_arith)
        requires
            n > 0,
            u >= 0,
    ;
    quotient_is_nearest(n * u, 10);
}

/// A shade has the product of the nearest tenths with the saturation, and with the lightness, each
/// rounded once.
pub proof fn shades_are_nearest(
    hsl: Hsl,
    saturation: int,
    lightness: int,
    target: Hsl,
) -> (tenths: (int, int))
    requires
        0 < saturation <= 15,
        0 < lightness <= 15,
        single::is_shade(hsl, saturation, lightness, target),
    ensures
        target.hue == hsl.hue,
        ({
            let (u, (s, l)) = (binary64::one() as int, tenths);
            &&& is_nearest_to(s, 10, saturation * u)
            &&& is_nearest_to(l, 10, lightness * u)
            &&& is_nearest_to(target.saturation.value(), u, hsl.saturation.value() * s)
            &&& is_nearest_to(target.lightness.value(), u, hsl.lightness.value() * l)
        }),
{
    let (s, l) = (binary64::tenths_of(saturation), binary64::tenths_of(lightness));
    tenths_are_nearest(saturation);
    tenths_are_nearest(lightness);
    product_is_nearest(hsl.saturation.value() * s);
    product_is_nearest(hsl.lightness.value() * l);
    (s, l)
}

/// A channel of the ramp is the first channel plus the product of the sixths with the difference of
/// the two; the sixths, the difference, the product and the sum are each rounded once.
pub proof fn mixed_channels_are_nearest(a: int, b: int, i: int) -> (parts: (int, int, int))
    requires
        0 <= i < 8,
    ensures
        ({
            let (u, (step, way, part)) = (binary64::one() as int, parts);
            &&& is_nearest_to(step, 6, i * u)
            &&& is_nearest_to(way, 1, b - a)
            &&& is_nearest_to(part, u, step * way)
            &&& is_nearest_to(grays::mixed_of(a, b, i), 1, a + part)
        }),
{
    let u = binary64::one() as int;
    assert(i * u >= 0) by (nonlinear_arith)
        requires
            i >= 0,
            u >= 0,
    ;
    quotient_is_nearest(i * u, 6);
    let (step, way) = (grays::step_of(i), binary64::rounded(b - a));
    assert(step == binary64::quotient_of(i * u, 6));
    let part = binary64::rounded_at(step * way, -1074);
    sum_is_nearest(b - a);
    product_is_nearest(step * way);
    sum_is_nearest(a + part);
    (step, way, part)
}

/// The difference of two hues is 180 degrees less what their distance is off 180 degrees; the
/// distance and the two differences are each rounded once.
pub proof fn differences_are_nearest(a: int, b: int) -> (parts: (int, int))
    ensures
        ({
            let (half, (apart, past)) = ((180 * binary64::one()) as int, parts);
            &&& is_nearest_to(apart, 1, a - b)
            &&& is_nearest_to(past, 1, nearness::size(apart) - half)
            &&& is_nearest_to(angle::difference_of(a, b), 1, half - nearness::size(past))
        }),
{
    let half = (180 * binary64::one()) as int;
    sum_is_nearest(a - b);
    let apart = binary64::rounded(a - b);
    sum_is_nearest(nearness::size(apart) - half);
    let past = binary64::rounded(nearness::size(apart) - half);
    sum_is_nearest(half - nearness::size(past));
    (apart, past)
}

/// A score is the whole part of the product of 10000 with the difference of the hues, which is
/// rounded once.
pub proof fn scores_are_nearest(hue: int, slot: int) -> (fine: int)
    requires
        0 <= slot < 8,
        0 <= hue <= 360 * binary64::one(),
    ensures
        ({
            let u = binary64::one() as int;
            let center = seq![10int, 40, 65, 115, 185, 245, 295, 25][slot] * u;
            let score = accents::score_of(hue, slot) * u;
            &&& is_nearest_to(fine, u, angle::difference_of(hue, center) * (10000 * u))
            &&& score <= fine < score + u
        }),
{
    let u = binary64::one() as int;
    let center = seq![10int, 40, 65, 115, 185, 245, 295, 25][slot] * u;
    assert(center == angle::degrees(accents::hue_center_of(slot)));
    let v = angle::difference_of(hue, center) * (10000 * u);
    product_is_nearest(v);
    let fine = binary64::rounded_at(v, -1074);
    accents::score_range(hue, slot);
    angle::degrees_are_small();
    angle::difference_range(hue, center);
    assert(v >= 0) by (nonlinear_arith)
        requires
            v == angle::difference_of(hue, center) * (10000 * u),
            angle::difference_of(hue, center) >= 0,
            u > 0,
    ;
    rounding::nearest_zero(-1074);
    binary64::rounded_increases(0, v, -1074);
    vstd::arithmetic::div_mod::lemma_fundamental_div_mod(fine, u);
    vstd::arithmetic::div_mod::lemma_mod_bound(fine, u);
    let whole = fine / u;
    assert(u * whole == whole * u) by (nonlinear_arith);
    fine
}

/// A harmonized hue is the accent hue plus or less the smaller of the ceiling and half the
/// difference of the hues, in the direction of the shorter way, brought into the circle; the half
/// and the sum are each rounded once.
pub proof fn harmonized_hues_are_nearest(accent: int, source: int, most: int) -> (parts: (
    int,
    int,
    int,
))
    requires
        0 <= accent <= 360 * binary64::one(),
        0 <= source <= 360 * binary64::one(),
    ensures
        ({
            let (half, rotation, turned) = parts;
            let exact = if angle::turns_forward(accent, source) {
                accent + rotation
            } else {
                accent - rotation
            };
            &&& is_nearest_to(half, 2, angle::difference_of(accent, source))
            &&& rotation <= half && rotation <= most && (rotation == half || rotation == most)
            &&& is_nearest_to(turned, 1, exact)
            &&& harmonization::harmonized_of(accent, source, most) == angle::sanitized_of(turned)
        }),
{
    angle::difference_range(accent, source);
    let way = angle::difference_of(accent, source);
    quotient_is_nearest(way, 2);
    let half = harmonization::half_way_of(accent, source);
    assert(half == binary64::quotient_of(way, 2));
    let rotation = harmonization::rotation_of(accent, source, most);
    let exact = if angle::turns_forward(accent, source) {
        accent + rotation
    } else {
        accent - rotation
    };
    sum_is_nearest(exact);
    (half, rotation, binary64::rounded(exact))
}

/// An angle below zero is brought into the circle by adding a full turn, rounded once.
pub proof fn turned_angles_are_nearest(v: int)
    requires
        v < 0,
    ensures
        is_nearest_to(angle::sanitized_of(v), 1, v + 360 * binary64::one()),
{
    sum_is_nearest(v + 360 * binary64::one());
}

/// The way to higher angles is taken where the difference of the hues, rounded once and brought
/// into the circle, is at most 180 degrees.
pub proof fn directions_are_nearest(from: int, to: int) -> (way: int)
    ensures
        is_nearest_to(way, 1, to - from),
        angle::turns_forward(from, to) <==> angle::sanitized_of(way) <= 180 * binary64::one(),
{
    sum_is_nearest(to - from);
    binary64::rounded(to - from)
}

/// A dragged hue is the hue plus or less the product of the amount with the difference of the hues,
/// brought into the circle; product and sum together are rounded once.
pub proof fn dragged_hues_are_nearest(source: int, target: int, amount: int) -> (turned: int)
    ensures
        ({
            let u = binary64::one() as int;
            let part = angle::difference_of(source, target) * amount;
            let exact = if angle::turns_forward(source, target) {
                source * u + part
            } else {
                source * u - part
            };
            &&& is_nearest_to(turned, u, exact)
            &&& angle::dragged_of(source, target, amount) == angle::sanitized_of(turned)
        }),
{
    let u = binary64::one() as int;
    let way = angle::difference_of(source, target);
    let part = way * amount;
    assert(way * (-amount) == -part) by (nonlinear_arith)
        requires
            part == way * amount,
    ;
    let exact = if angle::turns_forward(source, target) {
        source * u + part
    } else {
        source * u - part
    };
    product_is_nearest(exact);
    binary64::rounded_at(exact, -1074)
}

/// The hues of the accents of a color are sums rounded once, or the hue dragged by the number
/// nearest to eight tenths.
pub proof fn accent_hues_are_nearest(hct: Hct, targets: Seq<Hct>) -> (most: int)
    requires
        single::are_targets(hct, targets),
    ensures
        ({
            let (u, hue) = (binary64::one() as int, hct.hue.value());
            let red = targets[0].hue.value();
            let off = if angle::turns_forward(red, hue) {
                red + 10 * u
            } else {
                red - 10 * u
            };
            &&& is_nearest_to(most, 10, 8 * u)
            &&& red == angle::dragged_of(hue, 25 * u, most)
            &&& targets[3].hue.value() == angle::dragged_of(hue, 118 * u, most)
            &&& is_nearest_to(targets[1].hue.value(), 1, off)
            &&& is_nearest_to(targets[4].hue.value(), 1, hue + 60 * u)
        }),
{
    let (u, hue) = (binary64::one() as int, hct.hue.value());
    let n = single::numbers_of(hue, hct.chroma.value(), hct.tone.value());
    let parameters = single::parameters_of(n);
    assert(single::is_target(parameters[0], targets[0]));
    assert(single::is_target(parameters[1], targets[1]));
    assert(single::is_target(parameters[3], targets[3]));
    assert(single::is_target(parameters[4], targets[4]));
    tenths_are_nearest(8);
    sum_is_nearest(n.red + 10 * u);
    sum_is_nearest(n.red - 10 * u);
    sum_is_nearest(hue + 60 * u);
    binary64::tenths_of(8)
}

/// The chroma of a color in the last slot is its half, rounded once.
pub proof fn muted_chromas_are_nearest(dark: bool, hue: int, hct: Hct, target: Hct)
    requires
        accents::is_fitted(7, dark, hue, hct, target),
    ensures
        is_nearest_to(target.chroma.value(), 2, hct.chroma.value()),
{
    quotient_is_nearest(hct.chroma.value(), 2);
}

/// The chromas and the tones of the accents of a color: half of the high chroma and a sixth of the
/// color's chroma are rounded once, and so are the tones, which are made with the nearest tenths.
pub proof fn accent_targets_are_nearest(hct: Hct, targets: Seq<Hct>) -> (parts: (int, int, int))
    requires
        single::are_targets(hct, targets),
    ensures
        is_nearest_to(targets[1].chroma.value(), 2, targets[0].chroma.value()),
        ({
            let (u, (sixth, main, low)) = (binary64::one() as int, parts);
            let (chroma, tone) = (targets[7].chroma.value(), hct.tone.value());
            &&& is_nearest_to(sixth, 6, hct.chroma.value())
            &&& chroma <= sixth && chroma <= 10 * u && (chroma == sixth || chroma == 10 * u)
            &&& is_nearest_to(main, 10, 3 * u)
            &&& is_nearest_to(low, 10, 5 * u)
            &&& is_nearest_to(targets[0].tone.value(), u, tone * main + (50 * u) * u)
            &&& is_nearest_to(targets[7].tone.value(), u, tone * low + (20 * u) * u)
        }),
{
    let u = binary64::one() as int;
    let n = single::numbers_of(hct.hue.value(), hct.chroma.value(), hct.tone.value());
    exactness::accent_numbers(hct, targets, n);
    quotient_is_nearest(n.main_chroma, 2);
    quotient_is_nearest(hct.chroma.value(), 6);
    tenths_are_nearest(3);
    tenths_are_nearest(5);
    product_is_nearest(hct.tone.value() * binary64::tenths_of(3) + (50 * u) * u);
    product_is_nearest(hct.tone.value() * binary64::tenths_of(5) + (20 * u) * u);
    (
        binary64::quotient_of(hct.chroma.value(), 6),
        binary64::tenths_of(3),
        binary64::tenths_of(5),
    )
}

} // verus!
