//! Accent hues turned towards a source hue.
use vstd::arithmetic::power2::*;
use vstd::prelude::*;

use crate::angle;
use crate::binary64;
use crate::binary64::Binary64;
use crate::circle;
use crate::color::{Argb, Hct};
use crate::measure;
use crate::rounding;
use crate::selection;

verus! {

/// Strength of the hue blending applied to accent colors towards the source color. Higher
/// harmonization reduces jarring color clashes at the cost of rainbow diversity.
#[derive(Debug, Clone, Copy, PartialEq, Eq, Structural)]
pub enum Harmonization {
    /// No blending; accent hues are used exactly as extracted or synthesized.
    Off,
    /// Gentle blend of up to 15 degrees toward the source hue.
    Light,
    /// Stronger blend of up to 30 degrees toward the source hue.
    Moderate,
    /// Strongest blend of up to 45 degrees toward the source hue.
    Strong,
}

impl Default for Harmonization {
    fn default() -> (r: Harmonization)
        ensures
            r == Harmonization::Light,
    {
        Harmonization::Light
    }
}

impl Harmonization {
    /// The most that a hue is turned by, where it is turned at all: 15, 30 or 45 degrees.
    pub open spec fn most(self) -> Option<int> {
        match self {
            Harmonization::Off => None,
            Harmonization::Light => Some(angle::degrees(15)),
            Harmonization::Moderate => Some(angle::degrees(30)),
            Harmonization::Strong => Some(angle::degrees(45)),
        }
    }
}

/// Half the way round the circle from an accent hue to the source hue.
pub open spec fn half_way_of(accent: int, source: int) -> int {
    rounding::nearest_quotient(angle::difference_of(accent, source) as nat, 2) as int
}

/// How far an accent hue is turned: half the way to the source hue, and at most `most`.
pub open spec fn rotation_of(accent: int, source: int, most: int) -> int {
    if half_way_of(accent, source) <= most {
        half_way_of(accent, source)
    } else {
        most
    }
}

/// An accent hue turned towards the source hue by at most `most`.
pub open spec fn harmonized_of(accent: int, source: int, most: int) -> int {
    let rotation = rotation_of(accent, source, most);
    angle::sanitized_of(
        binary64::rounded(
            if angle::turns_forward(accent, source) {
                accent + rotation
            } else {
                accent - rotation
            },
        ),
    )
}

/// A hue is turned by no more than the ceiling, and by no more than half the way round.
pub proof fn rotation_is_capped(accent: int, source: int, most: int)
    requires
        0 <= accent <= angle::degrees(360),
        0 <= source <= angle::degrees(360),
        0 <= most,
    ensures
        0 <= rotation_of(accent, source, most) <= most,
        rotation_of(accent, source, most) <= half_way_of(accent, source) <= angle::degrees(90),
{
    angle::degrees_are_small();
    angle::difference_range(accent, source);
    let u = binary64::one();
    let way = angle::difference_of(accent, source) as nat;
    lemma2_to64();
    lemma2_to64_rest();
    rounding::bit_length_is(90, 7);
    rounding::nearest_quotient_exact(90, 1074, 2);
    assert((90 * 2) * u == 180 * u);
    rounding::nearest_quotient_increases(way, ((90 * 2) * u) as nat, 2);
}

/// Turns an accent hue towards the source hue by at most `most` degrees.
pub fn harmonized_hue(accent: Binary64, source: Binary64, most: Binary64) -> (r: Binary64)
    requires
        angle::is_hue(accent),
        angle::is_hue(source),
        most.number(),
        0 <= most.value(),
    ensures
        r.value() == harmonized_of(accent.value(), source.value(), most.value()),
        angle::is_hue(r),
        circle::is_turned(accent.value(), source.value(), most.value(), r.value()),
{
    proof {
        angle::degrees_are_small();
        rotation_is_capped(accent.value(), source.value(), most.value());
        lemma2_to64_rest();
        binary64::rounded_whole(-90, 1074);
        binary64::rounded_whole(450, 1074);
    }
    let way: Binary64 = angle::difference_degrees(accent, source);
    let half: Binary64 = way.divided_by(2);
    let rotation: Binary64 = half.min(most);
    proof {
        binary64::below_finite_is_finite(rotation, half);
    }
    let turned: Binary64 = if angle::rotates_forward(accent, source) {
        accent.plus(rotation)
    } else {
        accent.minus(rotation)
    };
    proof {
        let exact = if angle::turns_forward(accent.value(), source.value()) {
            accent.value() + rotation.value()
        } else {
            accent.value() - rotation.value()
        };
        binary64::rounded_increases(-90 * binary64::one(), exact, 0);
        binary64::rounded_increases(exact, (450 * binary64::one()) as int, 0);
    }
    proof {
        circle::harmonized_hue_is_turned(accent.value(), source.value(), most.value());
    }
    angle::sanitize_degrees(turned)
}

/// `target` is `accent` with its hue turned towards that of `source`.
pub open spec fn is_harmonized(accent: Hct, source: Hct, most: int, target: Hct) -> bool {
    &&& angle::is_hue(target.hue)
    &&& target.hue.value() == harmonized_of(accent.hue.value(), source.hue.value(), most)
    &&& target.chroma == accent.chroma
    &&& target.tone == accent.tone
}

/// `r` may come out when the hue of `accent` is turned towards that of `source` by at most `most`:
/// it is what `solve` makes of the measured accent with the turned hue.
pub open spec fn may_harmonize<S: Fn(Hct) -> Argb>(
    accent: Argb,
    source: Argb,
    most: int,
    solve: &S,
    r: Argb,
) -> bool {
    exists|a: Hct, s: Hct, target: Hct|
        #![trigger is_harmonized(a, s, most, target)]
        {
            &&& measure::may_measure(accent, a) && angle::is_hue(a.hue)
            &&& measure::may_measure(source, s) && angle::is_hue(s.hue)
            &&& is_harmonized(a, s, most, target)
            &&& solve.ensures((target,), r)
        }
}

/// Blends the hue of `accent` toward that of `source` by at most `most` degrees. `solve` finds the
/// color that has given hue, chroma and tone.
pub fn harmonize_hue<S: Fn(Hct) -> Argb>(
    accent: Argb,
    source: Argb,
    most: Binary64,
    solve: &S,
) -> (r: Argb)
    requires
        most.number(),
        0 <= most.value(),
        forall|target: Hct| solve.requires((target,)),
    ensures
        may_harmonize(accent, source, most.value(), solve, r),
        selection::is_blend(accent, source, most.value(), solve, r),
{
    let a: Hct = measure::measure(accent);
    let s: Hct = measure::measure(source);
    let target: Hct = Hct {
        hue: harmonized_hue(a.hue, s.hue, most),
        chroma: a.chroma,
        tone: a.tone,
    };
    assert(is_harmonized(a, s, most.value(), target));
    let r: Argb = solve(target);
    proof {
        selection::blending_turns_the_hue(accent, source, most.value(), solve, r);
    }
    r
}

/// `r` may come out when the harmonization is applied to `accent`.
pub open spec fn may_apply<S: Fn(Hct) -> Argb>(
    accent: Argb,
    source: Argb,
    harmonization: Harmonization,
    solve: &S,
    r: Argb,
) -> bool {
    match harmonization.most() {
        None => r == accent,
        Some(most) => may_harmonize(accent, source, most, solve, r),
    }
}

/// Applies the requested harmonization level to a single accent color.
pub fn apply_harmonization<S: Fn(Hct) -> Argb>(
    accent: Argb,
    source: Argb,
    harmonization: &Harmonization,
    solve: &S,
) -> (r: Argb)
    requires
        forall|target: Hct| solve.requires((target,)),
    ensures
        may_apply(accent, source, *harmonization, solve, r),
        selection::is_leveled(accent, source, *harmonization, solve, r),
{
    let most: Binary64 = match harmonization {
        Harmonization::Off => {
            return accent;
        },
        Harmonization::Light => Binary64::whole(15),
        Harmonization::Moderate => Binary64::whole(30),
        Harmonization::Strong => Binary64::whole(45),
    };
    proof {
        angle::degrees_are_small();
        binary64::finite_is_number(most);
    }
    harmonize_hue(accent, source, most, solve)
}

/// Without harmonization an accent is used exactly as it is.
pub proof fn off_changes_nothing<S: Fn(Hct) -> Argb>(
    accent: Argb,
    source: Argb,
    solve: &S,
    r: Argb,
)
    requires
        may_apply(accent, source, Harmonization::Off, solve, r),
    ensures
        r == accent,
{
}

/// A higher ceiling turns a hue at least as far.
pub proof fn stronger_turns_further(accent: int, source: int, less: int, more: int)
    requires
        less <= more,
    ensures
        rotation_of(accent, source, less) <= rotation_of(accent, source, more),
{
}

/// A ceiling beyond half the way has no effect: the hue is turned half the way.
pub proof fn high_ceilings_turn_half_way(accent: int, source: int, most: int)
    requires
        most >= half_way_of(accent, source),
    ensures
        rotation_of(accent, source, most) == half_way_of(accent, source),
{
}

/// From 90 degrees on the ceiling has no effect on any two colors.
pub proof fn high_ceilings_are_alike<S: Fn(Hct) -> Argb>(
    accent: Argb,
    source: Argb,
    one: int,
    other: int,
    solve: &S,
    r: Argb,
)
    requires
        one >= angle::degrees(90),
        other >= angle::degrees(90),
        may_harmonize(accent, source, one, solve, r),
    ensures
        may_harmonize(accent, source, other, solve, r),
{
    angle::degrees_are_small();
    let (a, s, target) = choose|a: Hct, s: Hct, target: Hct|
        #![trigger is_harmonized(a, s, one, target)]
        {
            &&& measure::may_measure(accent, a) && angle::is_hue(a.hue)
            &&& measure::may_measure(source, s) && angle::is_hue(s.hue)
            &&& is_harmonized(a, s, one, target)
            &&& solve.ensures((target,), r)
        };
    rotation_is_capped(a.hue.value(), s.hue.value(), one);
    assert(is_harmonized(a, s, other, target));
}

/// Of the source color only the hue counts.
pub proof fn source_counts_by_its_hue(accent: Hct, one: Hct, other: Hct, most: int, target: Hct)
    requires
        one.hue.value() == other.hue.value(),
    ensures
        is_harmonized(accent, one, most, target) <==> is_harmonized(accent, other, most, target),
{
}

/// An accent that has the hue of the source color keeps it.
pub proof fn same_hue_is_kept(accent: Hct, most: int)
    requires
        angle::is_hue(accent.hue),
        accent.hue.value() < angle::degrees(360),
        0 <= most,
    ensures
        harmonized_of(accent.hue.value(), accent.hue.value(), most) == accent.hue.value(),
{
    let hue = accent.hue.value();
    angle::difference_to_itself_is_zero(hue);
    rounding::nearest_quotient_zero(2);
    binary64::rounded_exact(accent.hue);
    vstd::arithmetic::div_mod::lemma_small_mod(hue as nat, angle::degrees(360) as nat);
}

/// The hue that a product with one half and a fused product with the direction give: the rotation
/// is the smaller of half the difference and the ceiling, and it is added with the sign of the
/// direction, with one rounding. With a ceiling of 15 degrees this is the formula of
/// `material_colors::blend::harmonize`.
pub open spec fn fused_hue_of(accent: int, source: int, most: int) -> int {
    let u = binary64::one() as int;
    let half = binary64::rounded_at(
        angle::difference_of(accent, source) * binary64::tenths_of(5),
        -1074,
    );
    let rotation = if half <= most {
        half
    } else {
        most
    };
    let direction = if angle::turns_forward(accent, source) {
        u
    } else {
        -u
    };
    angle::sanitized_of(binary64::rounded_at(rotation * direction + accent * u, -1074))
}

/// The hue is turned as the formula of the color library turns it; the gentle level turns it as
/// far.
pub proof fn hue_is_that_of_the_fused_formula(accent: int, source: int, most: int)
    requires
        0 <= accent <= angle::degrees(360),
        0 <= source <= angle::degrees(360),
        0 <= most,
    ensures
        harmonized_of(accent, source, most) == fused_hue_of(accent, source, most),
        Harmonization::Light.most() == Some(angle::degrees(15)),
{
    let u = binary64::one() as int;
    angle::degrees_are_small();
    angle::difference_range(accent, source);
    let way = angle::difference_of(accent, source);
    binary64::half_is_five_tenths();
    binary64::rounded_scaled(way, 1073, -1074);
    binary64::halved_is_rounded_half(way as nat);
    let rotation = rotation_of(accent, source, most);
    assert(rotation * u + accent * u == (accent + rotation) * u) by (nonlinear_arith);
    assert(rotation * (-u) + accent * u == (accent - rotation) * u) by (nonlinear_arith);
    binary64::rounded_scaled(accent + rotation, 1074, -1074);
    binary64::rounded_scaled(accent - rotation, 1074, -1074);
}

} // verus!
