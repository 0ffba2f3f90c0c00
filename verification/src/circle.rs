//! Hues on the circle, in exact arithmetic: what turning one hue towards another comes to.
use vstd::arithmetic::div_mod::*;
use vstd::arithmetic::power2::*;
use vstd::prelude::*;

use crate::accents;
use crate::angle;
use crate::binary64;
use crate::color::{Argb, Hct};
use crate::harmonization;
use crate::harmonization::Harmonization;
use crate::measure;
use crate::nearness;
use crate::rounding;

verus! {

/// The exact length of the shorter way between two hues.
pub open spec fn arc(a: int, b: int) -> int {
    let x = rounding::apart(a, b);
    if x <= 180 * binary64::one() {
        x
    } else {
        360 * binary64::one() - x
    }
}

/// A hue lies on the circle.
pub open spec fn on_circle(a: int) -> bool {
    0 <= a <= 360 * binary64::one()
}

/// The computed difference of two hues is the shorter way between them, up to three hairs.
pub proof fn difference_is_the_arc(a: int, b: int)
    requires
        on_circle(a),
        on_circle(b),
    ensures
        rounding::apart(angle::difference_of(a, b), arc(a, b)) <= 3 * nearness::hair(),
{
    let u = binary64::one() as int;
    nearness::hair_is_small();
    nearness::rounded_near(a - b);
    let apart = binary64::rounded(a - b);
    let far = nearness::size(apart);
    nearness::rounded_near(far - 180 * u);
    let past = binary64::rounded(far - 180 * u);
    nearness::rounded_near(180 * u - nearness::size(past));
}

/// Bringing an angle into the circle changes it by whole turns only, up to a hair.
pub proof fn sanitized_is_the_same_direction(v: int)
    requires
        -360 * binary64::one() <= v < 720 * binary64::one(),
    ensures
        on_circle(angle::sanitized_of(v)),
        ({
            let (u, t, h) = (binary64::one() as int, angle::sanitized_of(v), nearness::hair());
            &&& v < 0 ==> rounding::apart(t, v + 360 * u) <= h
            &&& 0 <= v < 360 * u ==> t == v
            &&& v >= 360 * u ==> t == v - 360 * u
        }),
{
    let u = binary64::one() as int;
    nearness::hair_is_small();
    if v < 0 {
        nearness::rounded_near(v + 360 * u);
        lemma2_to64_rest();
        binary64::rounded_whole(0, 1074);
        binary64::rounded_whole(360, 1074);
        assert(0 * u == 0) by (nonlinear_arith);
        binary64::rounded_increases(0, v + 360 * u, 0);
        binary64::rounded_increases(v + 360 * u, 360 * u, 0);
    } else if v >= 360 * u {
        lemma_fundamental_div_mod_converse(v, 360 * u, 1, v - 360 * u);
    } else {
        lemma_small_mod(v as nat, (360 * u) as nat);
    }
}

/// The direction that is chosen is that of the shorter way, up to two hairs.
pub proof fn direction_is_the_shorter_way(a: int, s: int)
    requires
        on_circle(a),
        on_circle(s),
    ensures
        ({
            let (u, h) = (binary64::one() as int, nearness::hair());
            let ahead = if s >= a {
                s - a
            } else {
                s - a + 360 * u
            };
            &&& angle::turns_forward(a, s) ==> ahead <= 180 * u + 2 * h || ahead >= 360 * u - 2 * h
            &&& !angle::turns_forward(a, s) ==> ahead >= 180 * u - 2 * h
        }),
{
    let u = binary64::one() as int;
    nearness::hair_is_small();
    nearness::rounded_near(s - a);
    angle::difference_range(s, a);
    sanitized_is_the_same_direction(binary64::rounded(s - a));
}

/// Between opposite hues both ways are equally short, and the one to higher angles is taken; so it
/// is where there is no way to go.
pub proof fn opposite_hues_turn_forward(a: int, s: int)
    requires
        on_circle(a),
        on_circle(s),
        a == s || rounding::apart(a, s) == 180 * binary64::one(),
    ensures
        angle::turns_forward(a, s),
{
    let u = binary64::one() as int;
    nearness::hair_is_small();
    lemma2_to64_rest();
    binary64::rounded_whole(0, 1074);
    binary64::rounded_whole(180, 1074);
    binary64::rounded_whole(-180, 1074);
    assert(0 * u == 0) by (nonlinear_arith);
    let v = s - a;
    assert(v == 0 || v == 180 * u || v == -180 * u);
    lemma_small_mod(0, (360 * u) as nat);
    lemma_small_mod((180 * u) as nat, (360 * u) as nat);
}

/// A hue that is turned by `rotation`, no further than to the other hue, is that far from where it
/// was, and lies on the shorter way.
proof fn turned_hue(a: int, s: int, rotation: int, exact: int, y: int)
    requires
        on_circle(a),
        on_circle(s),
        0 <= rotation <= arc(a, s) + 4 * nearness::hair(),
        rotation <= 181 * binary64::one(),
        exact == if angle::turns_forward(a, s) {
            a + rotation
        } else {
            a - rotation
        },
        rounding::apart(y, exact) <= 4 * nearness::hair(),
    ensures
        on_circle(angle::sanitized_of(y)),
        rounding::apart(arc(a, angle::sanitized_of(y)), rotation) <= 16 * nearness::hair(),
        arc(a, angle::sanitized_of(y)) + arc(angle::sanitized_of(y), s) <= arc(a, s) + 32
            * nearness::hair(),
{
    let (u, h) = (binary64::one() as int, nearness::hair());
    nearness::hair_is_small();
    direction_is_the_shorter_way(a, s);
    sanitized_is_the_same_direction(y);
}

/// What it means that `t` is the hue `a` turned towards `s`: it lies on the shorter way, and it is
/// half the way, or the ceiling, from where it was; all up to a few hairs.
pub open spec fn is_turned(a: int, s: int, most: int, t: int) -> bool {
    let h = nearness::hair();
    &&& on_circle(t)
    &&& arc(a, t) + arc(t, s) <= arc(a, s) + 64 * h
    &&& 2 * arc(a, t) <= arc(a, s) + 64 * h
    &&& arc(a, t) <= most + 64 * h
    &&& 2 * arc(a, t) >= arc(a, s) - 64 * h || arc(a, t) >= most - 64 * h
}

/// A harmonized hue is turned along the shorter way to the source hue, half the way or by the
/// ceiling, whichever is less.
pub proof fn harmonized_hue_is_turned(a: int, s: int, most: int)
    requires
        on_circle(a),
        on_circle(s),
        0 <= most,
    ensures
        is_turned(a, s, most, harmonization::harmonized_of(a, s, most)),
{
    let (u, h) = (binary64::one() as int, nearness::hair());
    nearness::hair_is_small();
    difference_is_the_arc(a, s);
    harmonization::rotation_is_capped(a, s, most);
    let way = angle::difference_of(a, s);
    angle::difference_range(a, s);
    nearness::quotient_near(way, 2);
    let rotation = harmonization::rotation_of(a, s, most);
    let exact = if angle::turns_forward(a, s) {
        a + rotation
    } else {
        a - rotation
    };
    nearness::rounded_near(exact);
    turned_hue(a, s, rotation, exact, binary64::rounded(exact));
}

/// The target of a harmonization has the chroma and the tone of the accent, and a hue that is
/// turned from that of the accent along the shorter way to that of the source, half the way or by
/// the ceiling, whichever is less.
pub proof fn harmonized_target_is_turned(accent: Hct, source: Hct, most: int, target: Hct)
    requires
        on_circle(accent.hue.value()),
        on_circle(source.hue.value()),
        0 <= most,
        harmonization::is_harmonized(accent, source, most, target),
    ensures
        target.chroma.value() == accent.chroma.value(),
        target.tone.value() == accent.tone.value(),
        target.hue.finite(),
        is_turned(accent.hue.value(), source.hue.value(), most, target.hue.value()),
{
    harmonized_hue_is_turned(accent.hue.value(), source.hue.value(), most);
}

/// The ceiling of a level in degrees; none is applied where there is no harmonization.
pub open spec fn ceiling_of(level: Harmonization) -> int {
    match level {
        Harmonization::Off => 0,
        Harmonization::Light => (15 * binary64::one()) as int,
        Harmonization::Moderate => (30 * binary64::one()) as int,
        Harmonization::Strong => (45 * binary64::one()) as int,
    }
}

/// What harmonization does to an accent: nothing if it is off; else the color is solved for that
/// is asked to have the chroma and the tone of the accent, and a hue on the shorter way to the
/// source hue, turned half the way or by 15, 30 or 45 degrees, whichever is less.
pub proof fn harmonization_turns_hues<S: Fn(Hct) -> Argb>(
    accent: Argb,
    source: Argb,
    level: Harmonization,
    solve: &S,
    r: Argb,
)
    requires
        harmonization::may_apply(accent, source, level, solve, r),
    ensures
        level is Off ==> r == accent,
        !(level is Off) ==> exists|a: Hct, s: Hct, target: Hct|
            {
                &&& #[trigger] measure::may_measure(accent, a)
                &&& #[trigger] measure::may_measure(source, s)
                &&& target.chroma.value() == a.chroma.value()
                &&& target.tone.value() == a.tone.value()
                &&& is_turned(
                    a.hue.value(),
                    s.hue.value(),
                    ceiling_of(level),
                    target.hue.value(),
                )
                &&& #[trigger] solve.ensures((target,), r)
            },
{
    if !(level is Off) {
        nearness::hair_is_small();
        let most = ceiling_of(level);
        assert(level.most() == Some(most));
        let (a, s, target) = choose|a: Hct, s: Hct, target: Hct|
            #![trigger harmonization::is_harmonized(a, s, most, target)]
            {
                &&& measure::may_measure(accent, a) && angle::is_hue(a.hue)
                &&& measure::may_measure(source, s) && angle::is_hue(s.hue)
                &&& harmonization::is_harmonized(a, s, most, target)
                &&& solve.ensures((target,), r)
            };
        harmonized_target_is_turned(a, s, most, target);
    }
}

/// A hue that is dragged lies on the shorter way to the target hue, and the fraction `amount` of
/// that way from where it was, up to a few hairs.
pub proof fn dragged_hue_is_turned(a: int, s: int, amount: int)
    requires
        on_circle(a),
        on_circle(s),
        0 <= amount <= binary64::one(),
    ensures
        ({
            let (u, h) = (binary64::one() as int, nearness::hair());
            let t = angle::dragged_of(a, s, amount);
            &&& on_circle(t)
            &&& arc(a, t) + arc(t, s) <= arc(a, s) + 64 * h
            &&& rounding::apart(arc(a, t) * u, amount * arc(a, s)) <= 64 * (h * u)
        }),
{
    let (u, h) = (binary64::one() as int, nearness::hair());
    nearness::hair_is_small();
    difference_is_the_arc(a, s);
    angle::difference_range(a, s);
    let way = angle::difference_of(a, s);
    let w = arc(a, s);
    let turn = if angle::turns_forward(a, s) {
        amount
    } else {
        -amount
    };
    let total = way * turn + a * u;
    let y = binary64::rounded_at(total, -1074);
    let part = way * amount;
    assert(0 <= part <= way * u && part <= (180 * u) * u) by (nonlinear_arith)
        requires
            0 <= way <= 180 * u,
            0 <= amount <= u,
            part == way * amount,
            u > 0,
    ;
    assert(way * (-amount) == -part) by (nonlinear_arith)
        requires
            part == way * amount,
    ;
    let limit = pow2(1086) as int;
    assert(nearness::size(total) <= limit * u) by (nonlinear_arith)
        requires
            total == part + a * u || total == -part + a * u,
            0 <= part <= (180 * u) * u,
            0 <= a <= 360 * u,
            limit == 4096 * u,
            u > 0,
    ;
    nearness::product_near(total);
    // the rotation, rounded down to a whole number
    lemma_fundamental_div_mod(part, u);
    lemma_mod_bound(part, u);
    let rotation = part / u;
    assert(u * rotation <= part < u * rotation + u);
    assert(0 <= rotation <= way && rotation <= 180 * u) by (nonlinear_arith)
        requires
            u * rotation <= part < u * rotation + u,
            0 <= part <= way * u,
            part <= (180 * u) * u,
            u > 0,
    ;
    let exact = if angle::turns_forward(a, s) {
        a + rotation
    } else {
        a - rotation
    };
    assert(rounding::apart(y, exact) <= h + 1) by (nonlinear_arith)
        requires
            rounding::apart(y * u, total) <= h * u,
            total == if angle::turns_forward(a, s) {
                part + a * u
            } else {
                -part + a * u
            },
            exact == if angle::turns_forward(a, s) {
                a + rotation
            } else {
                a - rotation
            },
            u * rotation <= part < u * rotation + u,
            u > 0,
    ;
    turned_hue(a, s, rotation, exact, y);
    let t = angle::dragged_of(a, s, amount);
    let moved = arc(a, t);
    assert(rounding::apart(moved * u, amount * w) <= 64 * (h * u)) by (nonlinear_arith)
        requires
            rounding::apart(moved, rotation) <= 16 * h,
            u * rotation <= part < u * rotation + u,
            part == way * amount,
            rounding::apart(way, w) <= 3 * h,
            0 <= amount <= u,
            h >= 1,
            u > 0,
    {
        assert(rounding::apart(way * amount, w * amount) <= 3 * (h * u)) by (nonlinear_arith)
            requires
                rounding::apart(way, w) <= 3 * h,
                0 <= amount <= u,
                h >= 1,
        ;
        assert(rounding::apart(moved * u, rotation * u) <= 16 * (h * u)) by (nonlinear_arith)
            requires
                rounding::apart(moved, rotation) <= 16 * h,
                u > 0,
        ;
        assert(w * amount == amount * w && u * rotation == rotation * u) by (nonlinear_arith);
        assert(u <= h * u) by (nonlinear_arith)
            requires
                h >= 1,
                u > 0,
        ;
    }
}

/// The score of a hue in a slot is its exact way to the hue of the slot, in ten-thousandths of a
/// degree, less than one off (and a very small fraction more, for rounding).
pub proof fn score_counts_the_way(hue: int, slot: int)
    requires
        on_circle(hue),
        0 <= slot < 8,
    ensures
        ({
            let (u, h) = (binary64::one() as int, nearness::hair());
            let center = seq![10int, 40, 65, 115, 185, 245, 295, 25][slot] * u;
            let way = 10000 * arc(hue, center);
            let score = accents::score_of(hue, slot) * u;
            score <= way + 0x10000 * h && way < score + u + 0x10000 * h
        }),
{
    let (u, h) = (binary64::one() as int, nearness::hair());
    nearness::hair_is_small();
    let center = seq![10int, 40, 65, 115, 185, 245, 295, 25][slot] * u;
    assert(center == angle::degrees(accents::hue_center_of(slot)));
    difference_is_the_arc(hue, center);
    angle::difference_range(hue, center);
    accents::score_range(hue, slot);
    let d = angle::difference_of(hue, center);
    let v = d * (10000 * u);
    let p = binary64::rounded_at(v, -1074);
    nearness::rounded_error(v, 1074);
    assert(0 <= v <= (1_800_000 * u) * u && v == (10000 * d) * u) by (nonlinear_arith)
        requires
            v == d * (10000 * u),
            0 <= d <= 180 * u,
            u > 0,
    ;
    let x = pow2(1034) as int;
    let k = pow2(52) as int;
    assert((1_800_000 * u) * u <= k * ((512 * x) * u) && u <= x * u) by (nonlinear_arith)
        requires
            k * x == 4096 * u,
            x >= 1,
            u > 0,
    ;
    assert((512 * x) * u == 512 * (x * u)) by (nonlinear_arith);
    assert(rounding::apart(p * u, v) <= 513 * (x * u));
    assert(rounding::apart(p, 10000 * d) <= 513 * x) by (nonlinear_arith)
        requires
            rounding::apart(p * u, v) <= 513 * (x * u),
            v == (10000 * d) * u,
            u > 0,
    ;
    rounding::nearest_zero(-1074);
    binary64::rounded_increases(0, v, -1074);
    lemma_fundamental_div_mod(p, u);
    lemma_mod_bound(p, u);
    lemma_div_is_ordered(p, 0x7fff_ffff_ffff_ffff * u, u);
    let score = accents::score_of(hue, slot);
    assert(p / u == score || p / u > 0x7fff_ffff_ffff_ffff);
    assert(u * (p / u) == (p / u) * u) by (nonlinear_arith);
    assert(p / u <= 0x7fff_ffff_ffff_ffff) by (nonlinear_arith)
        requires
            (p / u) * u <= p,
            p <= 2_000_000 * u,
            u > 0,
    ;
}

} // verus!
