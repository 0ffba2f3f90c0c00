//! The scheme of a single color.
use indexmap::IndexMap;
use vstd::arithmetic::power2::*;
use vstd::prelude::*;

use crate::accents;
use crate::angle;
use crate::binary64;
use crate::binary64::Binary64;
use crate::color::{Argb, Hct, Hsl, Rgb};
use crate::error::SchemeError;
use crate::exactness;
use crate::grays;
use crate::measure;
use crate::rounding;
use crate::scheme;

verus! {

/// `target` has the hue of `hsl`, and tenths of its saturation and of its lightness.
pub open spec fn is_shade(hsl: Hsl, saturation: int, lightness: int, target: Hsl) -> bool {
    &&& target.hue == hsl.hue
    &&& target.saturation.finite()
    &&& target.saturation.value() == binary64::rounded_at(
        hsl.saturation.value() * binary64::tenths_of(saturation),
        -1074,
    )
    &&& target.lightness.finite()
    &&& target.lightness.value() == binary64::rounded_at(
        hsl.lightness.value() * binary64::tenths_of(lightness),
        -1074,
    )
}

/// The color with tenths of its saturation and of its lightness.
pub fn shade(hsl: &Hsl, saturation: u16, lightness: u16) -> (target: Hsl)
    requires
        hsl.valid(),
        0 < saturation <= 15,
        0 < lightness <= 15,
    ensures
        is_shade(*hsl, saturation as int, lightness as int, target),
        target.hue == hsl.hue,
        exactness::is_tenths(hsl.saturation.value(), saturation as int, target.saturation.value()),
        exactness::is_tenths(hsl.lightness.value(), lightness as int, target.lightness.value()),
{
    proof {
        angle::degrees_are_small();
    }
    let target: Hsl = Hsl {
        hue: hsl.hue,
        saturation: hsl.saturation.times(binary64::tenths(saturation)),
        lightness: hsl.lightness.times(binary64::tenths(lightness)),
    };
    proof {
        exactness::shade_scales(*hsl, saturation as int, lightness as int, target);
    }
    target
}

/// The numbers that the accents of a color are made of.
pub struct Numbers {
    /// The hue of the color itself.
    pub primary: int,
    /// The hue a sixth of the circle further.
    pub accent: int,
    /// The hue most of the way to red.
    pub red: int,
    /// The hue most of the way to green.
    pub green: int,
    /// The hue beside that red, on the side of the color.
    pub off: int,
    /// A high chroma.
    pub main_chroma: int,
    /// Half of that.
    pub mute_chroma: int,
    /// A low chroma.
    pub low_chroma: int,
    /// The tone of most accents.
    pub main_tone: int,
    /// The tone of the last accent.
    pub low_tone: int,
}

/// The smaller of two integers.
pub open spec fn smaller(a: int, b: int) -> int {
    if a <= b {
        a
    } else {
        b
    }
}

/// The greater of two integers.
pub open spec fn greater(a: int, b: int) -> int {
    if a >= b {
        a
    } else {
        b
    }
}

/// The numbers that the accents are made of, for a color with the given hue, chroma and tone.
pub open spec fn numbers_of(hue: int, chroma: int, tone: int) -> Numbers {
    let u = binary64::one() as int;
    let red = angle::dragged_of(hue, angle::degrees(25), binary64::tenths_of(8));
    let main_chroma = greater(chroma, 80 * u);
    Numbers {
        primary: hue,
        accent: binary64::rounded(hue + angle::degrees(60)),
        red,
        green: angle::dragged_of(hue, angle::degrees(118), binary64::tenths_of(8)),
        off: binary64::rounded(
            if angle::turns_forward(red, hue) {
                red + angle::degrees(10)
            } else {
                red - angle::degrees(10)
            },
        ),
        main_chroma,
        mute_chroma: binary64::quotient_of(main_chroma, 2),
        low_chroma: smaller(binary64::quotient_of(chroma, 6), 10 * u),
        main_tone: binary64::rounded_at(tone * binary64::tenths_of(3) + (50 * u) * u, -1074),
        low_tone: binary64::rounded_at(tone * binary64::tenths_of(5) + (20 * u) * u, -1074),
    }
}

/// Hue, chroma and tone of the accents: variables, literals, classes, strings, escape characters,
/// functions, keywords, deprecated.
pub open spec fn parameters_of(n: Numbers) -> Seq<(int, int, int)> {
    seq![
        (n.red, n.main_chroma, n.main_tone),
        (n.off, n.mute_chroma, n.main_tone),
        (n.primary, n.mute_chroma, n.main_tone),
        (n.green, n.main_chroma, n.main_tone),
        (n.accent, n.mute_chroma, n.main_tone),
        (n.primary, n.main_chroma, n.main_tone),
        (n.accent, n.main_chroma, n.main_tone),
        (n.primary, n.low_chroma, n.low_tone),
    ]
}

/// `target` stands for the given hue, chroma and tone.
pub open spec fn is_target(parameters: (int, int, int), target: Hct) -> bool {
    &&& target.hue.finite() && target.hue.value() == parameters.0
    &&& target.chroma.finite() && target.chroma.value() == parameters.1
    &&& target.tone.finite() && target.tone.value() == parameters.2
}

/// The targets are those of the accents of a color that was measured as `hct`.
pub open spec fn are_targets(hct: Hct, targets: Seq<Hct>) -> bool {
    &&& targets.len() == 8
    &&& forall|i: int|
        0 <= i < 8 ==> is_target(
            parameters_of(
                numbers_of(hct.hue.value(), hct.chroma.value(), hct.tone.value()),
            )[i],
            #[trigger] targets[i],
        )
}

/// Hue, chroma and tone of the accents of a color.
pub fn accent_targets(hct: &Hct) -> (targets: Vec<Hct>)
    requires
        hct.valid(),
    ensures
        are_targets(*hct, targets@),
{
    let ghost u = binary64::one() as int;
    let ghost n = numbers_of(hct.hue.value(), hct.chroma.value(), hct.tone.value());
    proof {
        angle::degrees_are_small();
        lemma2_to64();
        lemma2_to64_rest();
    }
    let most: Binary64 = eighty_percent();
    let primary: Binary64 = hct.hue;
    let accent: Binary64 = primary.plus(Binary64::whole(60));
    let red: Binary64 = angle::drag_hue(primary, Binary64::whole(25), most);
    let green: Binary64 = angle::drag_hue(primary, Binary64::whole(118), most);
    let off: Binary64 = if angle::rotates_forward(red, primary) {
        red.plus(Binary64::whole(10))
    } else {
        red.minus(Binary64::whole(10))
    };
    let main_chroma: Binary64 = hct.chroma.max(Binary64::whole(80));
    let mute_chroma: Binary64 = main_chroma.divided_by(2);
    let low_chroma: Binary64 = hct.chroma.divided_by(6).min(Binary64::whole(10));
    let main_tone: Binary64 = hct.tone.mul_add(binary64::tenths(3), Binary64::whole(50));
    let low_tone: Binary64 = hct.tone.mul_add(binary64::tenths(5), Binary64::whole(20));
    let mut targets: Vec<Hct> = Vec::new();
    targets.push(Hct { hue: red, chroma: main_chroma, tone: main_tone });
    targets.push(Hct { hue: off, chroma: mute_chroma, tone: main_tone });
    targets.push(Hct { hue: primary, chroma: mute_chroma, tone: main_tone });
    targets.push(Hct { hue: green, chroma: main_chroma, tone: main_tone });
    targets.push(Hct { hue: accent, chroma: mute_chroma, tone: main_tone });
    targets.push(Hct { hue: primary, chroma: main_chroma, tone: main_tone });
    targets.push(Hct { hue: accent, chroma: main_chroma, tone: main_tone });
    targets.push(Hct { hue: primary, chroma: low_chroma, tone: low_tone });
    targets
}

/// Eight tenths.
fn eighty_percent() -> (r: Binary64)
    ensures
        r.finite(),
        r.value() == binary64::tenths_of(8),
        0 <= r.value() <= binary64::one(),
{
    let r: Binary64 = binary64::tenths(8);
    proof {
        let u = binary64::one();
        angle::degrees_are_small();
        lemma2_to64();
        rounding::bit_length_is(1, 1);
        rounding::nearest_quotient_exact(1, 1074, 10);
        assert((1 * 10) * u == 10 * u);
        rounding::nearest_quotient_increases((8 * u) as nat, ((1 * 10) * u) as nat, 10);
    }
    r
}

/// What the schemes of a color are made of.
#[derive(Debug)]
pub struct ColorReading {
    /// The color with little saturation, and lighter.
    pub dim: Rgb,
    /// The color with more saturation, and darker.
    pub bright: Rgb,
    /// The accents.
    pub accents: Vec<Argb>,
}

impl ColorReading {
    /// The channels are in range, and there are eight accents.
    pub open spec fn valid(self) -> bool {
        self.dim.valid() && self.bright.valid() && self.accents@.len() == 8
    }
}

/// `rgb` may come of a shade of the color that was read as `hsl`.
pub open spec fn may_shade<C: Fn(Hsl) -> Rgb>(
    hsl: Hsl,
    saturation: int,
    lightness: int,
    convert: &C,
    rgb: Rgb,
) -> bool {
    exists|target: Hsl| #[trigger]
        is_shade(hsl, saturation, lightness, target) && convert.ensures((target,), rgb)
}

/// `accents` may be the accents of the color.
pub open spec fn may_accent<S: Fn(Hct) -> Argb>(
    color: Argb,
    solve: &S,
    accents: Seq<Argb>,
) -> bool {
    exists|hct: Hct, targets: Seq<Hct>|
        {
            &&& #[trigger] measure::may_measure(color, hct)
            &&& #[trigger] are_targets(hct, targets)
            &&& accents.len() == 8
            &&& forall|i: int| 0 <= i < 8 ==> solve.ensures((targets[i],), #[trigger] accents[i])
        }
}

/// `reading` may come of the color that was read as `hsl` and is `color` in 8-bit channels.
pub open spec fn may_read_color<C: Fn(Hsl) -> Rgb, S: Fn(Hct) -> Argb>(
    hsl: Hsl,
    color: Argb,
    convert: &C,
    solve: &S,
    reading: ColorReading,
) -> bool {
    &&& may_shade(hsl, 3, 15, convert, reading.dim)
    &&& may_shade(hsl, 7, 2, convert, reading.bright)
    &&& may_accent(color, solve, reading.accents@)
}

/// A conversion of the color may give numbers that are out of range.
pub open spec fn may_fail<C: Fn(Hsl) -> Rgb>(hsl: Hsl, color: Argb, convert: &C) -> bool {
    ||| !hsl.valid()
    ||| accents::may_misread(color)
    ||| exists|rgb: Rgb| #[trigger] may_shade(hsl, 3, 15, convert, rgb) && !rgb.valid()
    ||| exists|rgb: Rgb| #[trigger] may_shade(hsl, 7, 2, convert, rgb) && !rgb.valid()
}

/// What the schemes of a color are made of, where the color was read as `hsl` and is `color` in
/// 8-bit channels. `convert` finds the channels of a color with given hue, saturation and
/// lightness, and `solve` the color that has given hue, chroma and tone.
pub fn read_color<C: Fn(Hsl) -> Rgb, S: Fn(Hct) -> Argb>(
    hsl: &Hsl,
    color: Argb,
    convert: &C,
    solve: &S,
) -> (r: Result<ColorReading, SchemeError>)
    requires
        forall|target: Hsl| convert.requires((target,)),
        forall|target: Hct| solve.requires((target,)),
    ensures
        match r {
            Ok(reading) => reading.valid() && may_read_color(*hsl, color, convert, solve, reading),
            Err(e) => e == (SchemeError::Range { color }) && may_fail(*hsl, color, convert),
        },
{
    let hct: Hct = measure::measure(color);
    if !hsl.is_valid() || !hct.is_valid() {
        return Err(SchemeError::Range { color });
    }
    let dim: Rgb = convert(shade(hsl, 3, 15));
    assert(may_shade(*hsl, 3, 15, convert, dim));
    let bright: Rgb = convert(shade(hsl, 7, 2));
    assert(may_shade(*hsl, 7, 2, convert, bright));
    if !dim.is_valid() || !bright.is_valid() {
        return Err(SchemeError::Range { color });
    }
    let targets: Vec<Hct> = accent_targets(&hct);
    let mut accents: Vec<Argb> = Vec::new();
    let mut i: usize = 0;
    while i < 8
        invariant
            i <= 8,
            targets@.len() == 8,
            accents@.len() == i,
            forall|target: Hct| solve.requires((target,)),
            forall|j: int| 0 <= j < i ==> solve.ensures((targets@[j],), #[trigger] accents@[j]),
        decreases 8 - i,
    {
        accents.push(solve(targets[i]));
        i = i + 1;
    }
    Ok(ColorReading { dim, bright, accents })
}

/// What the scheme of a color holds. The gray ramp of the dark scheme and that of the light one run
/// between the same colors, in opposite directions; the accents are the same.
pub open spec fn color_scheme_of(reading: ColorReading, dark: bool) -> Seq<(Seq<char>, Argb)> {
    let ramp = if dark {
        grays::grays_of(reading.dim, reading.bright)
    } else {
        grays::grays_of(reading.bright, reading.dim)
    };
    scheme::scheme_of(ramp, reading.accents@)
}

/// The scheme of a color that has been read.
pub fn scheme_from_reading(reading: &ColorReading, dark: bool) -> (map: IndexMap<String, Argb>)
    requires
        reading.valid(),
    ensures
        scheme::entries(map) == color_scheme_of(*reading, dark),
{
    let ramp: Vec<Argb> = if dark {
        grays::interpolate_grays(&reading.dim, &reading.bright)
    } else {
        grays::interpolate_grays(&reading.bright, &reading.dim)
    };
    scheme::assemble(&ramp, &reading.accents)
}

/// `r` may come of a color, as its dark or its light scheme.
pub open spec fn may_color<
    H: Fn(Rgb) -> Hsl,
    A: Fn(Rgb) -> Argb,
    C: Fn(Hsl) -> Rgb,
    S: Fn(Hct) -> Argb,
>(
    color: Rgb,
    dark: bool,
    hsl_of: &H,
    argb_of: &A,
    convert: &C,
    solve: &S,
    r: Result<IndexMap<String, Argb>, SchemeError>,
) -> bool {
    exists|hsl: Hsl, argb: Argb|
        {
            &&& #[trigger] hsl_of.ensures((color,), hsl)
            &&& #[trigger] argb_of.ensures((color,), argb)
            &&& match r {
                Ok(map) => exists|reading: ColorReading| #[trigger]
                    may_read_color(hsl, argb, convert, solve, reading) && reading.valid()
                        && scheme::entries(map) == color_scheme_of(reading, dark),
                Err(e) => e == (SchemeError::Range { color: argb }) && may_fail(hsl, argb, convert),
            }
        }
}

/// The dark or the light scheme of a color. `hsl_of` and `argb_of` read the color, `convert` finds
/// the channels of a color with given hue, saturation and lightness, and `solve` the color that has
/// given hue, chroma and tone.
pub fn generate_base16_scheme_from_color<
    H: Fn(Rgb) -> Hsl,
    A: Fn(Rgb) -> Argb,
    C: Fn(Hsl) -> Rgb,
    S: Fn(Hct) -> Argb,
>(
    color: &Rgb,
    dark: bool,
    hsl_of: &H,
    argb_of: &A,
    convert: &C,
    solve: &S,
) -> (r: Result<IndexMap<String, Argb>, SchemeError>)
    requires
        forall|read: Rgb| hsl_of.requires((read,)),
        forall|read: Rgb| argb_of.requires((read,)),
        forall|target: Hsl| convert.requires((target,)),
        forall|target: Hct| solve.requires((target,)),
    ensures
        may_color(*color, dark, hsl_of, argb_of, convert, solve, r),
{
    let hsl: Hsl = hsl_of(*color);
    let argb: Argb = argb_of(*color);
    match read_color(&hsl, argb, convert, solve) {
        Ok(reading) => Ok(scheme_from_reading(&reading, dark)),
        Err(e) => Err(e),
    }
}

/// The dark and the light scheme of a color have the same accents.
pub proof fn schemes_share_accents(reading: ColorReading, i: int)
    requires
        8 <= i < 16,
    ensures
        color_scheme_of(reading, true)[i] == color_scheme_of(reading, false)[i],
{
}

/// The dark scheme of a color starts at its dim shade, and the light scheme at its bright one.
pub proof fn schemes_start_at_opposite_ends(reading: ColorReading)
    requires
        reading.valid(),
    ensures
        color_scheme_of(reading, true)[0].1 == grays::nearest_color(reading.dim),
        color_scheme_of(reading, false)[0].1 == grays::nearest_color(reading.bright),
{
    grays::ramp_starts_at_the_first(reading.dim, reading.bright);
    grays::ramp_starts_at_the_first(reading.bright, reading.dim);
}

/// The gray ramps of the dark and the light scheme of a color mirror each other, up to one in each
/// channel, but for their last color, which lies beyond the end.
pub proof fn schemes_mirror_their_ramps(reading: ColorReading, i: int)
    requires
        reading.valid(),
        0 <= i <= 6,
    ensures
        grays::within_one(
            color_scheme_of(reading, true)[i].1,
            color_scheme_of(reading, false)[6 - i].1,
        ),
{
    grays::swapped_ends_reverse_the_ramp(reading.dim, reading.bright, i);
}

} // verus!
