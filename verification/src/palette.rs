//! Palettes, and the ends of the gray ramp that they give.
use indexmap::IndexMap;
use vstd::prelude::*;

use crate::accents;
use crate::binary64::Binary64;
use crate::color;
use crate::color::{Argb, Hct, Rgb};
use crate::error::SchemeError;
use crate::grays;
use crate::harmonization::Harmonization;
use crate::scheme;

verus! {

/// A color of a palette, with what has been read of it.
#[derive(Clone, Copy, Debug, PartialEq, Eq, Structural)]
pub struct PaletteColor {
    /// The color.
    pub color: Rgb,
    /// The color in 8-bit channels.
    pub argb: Argb,
    /// How bright the color is.
    pub luminance: Binary64,
}

impl PaletteColor {
    /// The channels are in range, and the luminance is a number.
    pub open spec fn valid(self) -> bool {
        self.color.valid() && self.luminance.number()
    }
}

/// The two colors of a Material scheme between which the gray ramp runs.
#[derive(Clone, Copy, Debug, PartialEq, Eq, Structural)]
pub struct MaterialScheme {
    pub surface_container_lowest: Argb,
    pub primary: Argb,
}

/// A Material theme: its source color, and its two schemes.
#[derive(Clone, Copy, Debug, PartialEq, Eq, Structural)]
pub struct Theme {
    pub source: Argb,
    pub dark: MaterialScheme,
    pub light: MaterialScheme,
}

/// Color `i` is the brightest, the first of equally bright ones.
pub open spec fn is_brightest(palette: Seq<PaletteColor>, i: int) -> bool {
    &&& 0 <= i < palette.len()
    &&& forall|j: int|
        0 <= j < palette.len() ==> palette[i].luminance.value() > (
        #[trigger] palette[j]).luminance.value() || (palette[i].luminance.value()
            == palette[j].luminance.value() && i <= j)
}

/// Color `i` is the darkest, the last of equally dark ones.
pub open spec fn is_darkest(palette: Seq<PaletteColor>, i: int) -> bool {
    &&& 0 <= i < palette.len()
    &&& forall|j: int|
        0 <= j < palette.len() ==> palette[i].luminance.value() < (
        #[trigger] palette[j]).luminance.value() || (palette[i].luminance.value()
            == palette[j].luminance.value() && j <= i)
}

/// The palette has a brightest and a darkest color.
pub open spec fn gives_ends(palette: Seq<PaletteColor>) -> bool {
    &&& palette.len() > 0
    &&& forall|i: int| 0 <= i < palette.len() ==> (#[trigger] palette[i]).valid()
}

/// Whether the palette has a brightest and a darkest color.
pub fn check_ends(palette: &Vec<PaletteColor>) -> (r: bool)
    ensures
        r == gives_ends(palette@),
{
    let mut i: usize = 0;
    while i < palette.len()
        invariant
            i <= palette.len(),
            forall|j: int| 0 <= j < i ==> (#[trigger] palette@[j]).valid(),
        decreases palette.len() - i,
    {
        if !palette[i].color.is_valid() || !palette[i].luminance.is_number() {
            assert(!palette@[i as int].valid());
            return false;
        }
        i = i + 1;
    }
    i > 0
}

/// The gray ramp runs from `base00` through `base05`: those of the Material scheme if there is
/// one, and the brightest and the darkest color of the palette otherwise.
pub open spec fn are_ends(
    palette: Seq<PaletteColor>,
    material_scheme: Option<MaterialScheme>,
    base00: Rgb,
    base05: Rgb,
) -> bool {
    match material_scheme {
        Some(material) => base00.is_of(material.surface_container_lowest) && base05.is_of(
            material.primary,
        ),
        None => exists|i: int, j: int|
            #![trigger is_brightest(palette, i), is_darkest(palette, j)]
            is_brightest(palette, i) && is_darkest(palette, j) && base00 == palette[i].color
                && base05 == palette[j].color,
    }
}

/// The index of the brightest color, the first of equally bright ones.
pub fn brightest(palette: &Vec<PaletteColor>) -> (r: usize)
    requires
        palette@.len() > 0,
    ensures
        is_brightest(palette@, r as int),
{
    let mut best: usize = 0;
    let mut i: usize = 1;
    while i < palette.len()
        invariant
            best < i <= palette.len(),
            forall|j: int|
                0 <= j < i ==> palette@[best as int].luminance.value() > (
                #[trigger] palette@[j]).luminance.value() || (
                palette@[best as int].luminance.value() == palette@[j].luminance.value() && best
                    <= j),
        decreases palette.len() - i,
    {
        if !palette[best].luminance.at_least(palette[i].luminance) {
            best = i;
        }
        i = i + 1;
    }
    best
}

/// The index of the darkest color, the last of equally dark ones.
pub fn darkest(palette: &Vec<PaletteColor>) -> (r: usize)
    requires
        palette@.len() > 0,
    ensures
        is_darkest(palette@, r as int),
{
    let mut best: usize = 0;
    let mut i: usize = 1;
    while i < palette.len()
        invariant
            best < i <= palette.len(),
            forall|j: int|
                0 <= j < i ==> palette@[best as int].luminance.value() < (
                #[trigger] palette@[j]).luminance.value() || (
                palette@[best as int].luminance.value() == palette@[j].luminance.value() && j
                    <= best),
        decreases palette.len() - i,
    {
        if palette[best].luminance.at_least(palette[i].luminance) {
            best = i;
        }
        i = i + 1;
    }
    best
}

/// The ends of the gray ramp.
pub fn gray_ends(
    palette: &Vec<PaletteColor>,
    material_scheme: Option<&MaterialScheme>,
) -> (r: (Rgb, Rgb))
    requires
        material_scheme is None ==> gives_ends(palette@),
    ensures
        are_ends(
            palette@,
            match material_scheme {
                Some(material) => Some(*material),
                None => None,
            },
            r.0,
            r.1,
        ),
        r.0.valid(),
        r.1.valid(),
{
    match material_scheme {
        Some(material) => (
            color::rgb_from_argb(material.surface_container_lowest),
            color::rgb_from_argb(material.primary),
        ),
        None => {
            let i: usize = brightest(palette);
            let j: usize = darkest(palette);
            assert(palette@[i as int].valid() && palette@[j as int].valid());
            assert(is_brightest(palette@, i as int) && is_darkest(palette@, j as int));
            (palette[i].color, palette[j].color)
        },
    }
}

/// The colors of a palette in 8-bit channels.
pub open spec fn argbs_of(palette: Seq<PaletteColor>) -> Seq<Argb> {
    Seq::new(palette.len(), |i: int| palette[i].argb)
}

/// `entries` may be what the scheme of a palette holds.
pub open spec fn may_generate<S: Fn(Hct) -> Argb>(
    palette: Seq<PaletteColor>,
    material_scheme: Option<MaterialScheme>,
    source_color: Option<Argb>,
    harmonization: Harmonization,
    dark: bool,
    solve: &S,
    entries: Seq<(Seq<char>, Argb)>,
) -> bool {
    exists|base00: Rgb, base05: Rgb, colors: Seq<Argb>|
        {
            &&& #[trigger] are_ends(palette, material_scheme, base00, base05)
            &&& #[trigger] accents::may_assign(
                argbs_of(palette),
                source_color,
                harmonization,
                dark,
                solve,
                colors,
            )
            &&& entries == scheme::scheme_of(grays::grays_of(base00, base05), colors)
        }
}

/// The scheme of a palette. The gray ramp runs between the colors of the Material scheme if there
/// is one, so that it matches the palette that the user sees there, and between the brightest and
/// the darkest color of the palette otherwise. `solve` finds the color that has given hue, chroma
/// and tone.
pub fn generate_base16_scheme_from_palette<S: Fn(Hct) -> Argb>(
    palette: &Vec<PaletteColor>,
    material_scheme: Option<&MaterialScheme>,
    source_color: Option<Argb>,
    harmonization: &Harmonization,
    dark: bool,
    solve: &S,
) -> (r: Result<IndexMap<String, Argb>, SchemeError>)
    requires
        material_scheme is None ==> gives_ends(palette@),
        forall|target: Hct| solve.requires((target,)),
    ensures
        match r {
            Ok(map) => may_generate(
                palette@,
                match material_scheme {
                    Some(material) => Some(*material),
                    None => None,
                },
                source_color,
                *harmonization,
                dark,
                solve,
                scheme::entries(map),
            ),
            Err(e) => e matches SchemeError::Range { color } && accents::may_misread(color) && (
            argbs_of(palette@).contains(color) || source_color == Some(color)),
        },
{
    let (base00, base05): (Rgb, Rgb) = gray_ends(palette, material_scheme);
    let ramp: Vec<Argb> = grays::interpolate_grays(&base00, &base05);
    let mut argbs: Vec<Argb> = Vec::new();
    let mut i: usize = 0;
    while i < palette.len()
        invariant
            i <= palette.len(),
            argbs@.len() == i,
            forall|j: int| 0 <= j < i ==> #[trigger] argbs@[j] == palette@[j].argb,
        decreases palette.len() - i,
    {
        argbs.push(palette[i].argb);
        i = i + 1;
    }
    assert(argbs@ =~= argbs_of(palette@));
    match accents::assign_accents(&argbs, source_color, harmonization, dark, solve) {
        Ok(colors) => Ok(scheme::assemble(&ramp, &colors)),
        Err(e) => Err(e),
    }
}

/// With a Material scheme the gray ramp starts at its lowest surface, and reaches its primary color
/// at step 6, whatever the palette.
pub proof fn material_ramp_meets_its_ends(
    palette: Seq<PaletteColor>,
    material: MaterialScheme,
    base00: Rgb,
    base05: Rgb,
)
    requires
        are_ends(palette, Some(material), base00, base05),
    ensures
        grays::grays_of(base00, base05)[0] == grays::opaque(material.surface_container_lowest),
        grays::grays_of(base00, base05)[6] == grays::opaque(material.primary),
{
    grays::ramp_meets_its_ends(
        base00,
        base05,
        material.surface_container_lowest,
        material.primary,
    );
}

/// Without a Material scheme the ramp runs from the brightest color of the palette to the darkest.
pub proof fn palette_ramp_runs_downwards(
    palette: Seq<PaletteColor>,
    base00: Rgb,
    base05: Rgb,
    i: int,
)
    requires
        are_ends(palette, None, base00, base05),
        0 <= i < palette.len(),
    ensures
        exists|p: int, q: int|
            0 <= p < palette.len() && 0 <= q < palette.len() && (#[trigger] palette[p]).color
                == base00 && (#[trigger] palette[q]).color == base05
                && palette[p].luminance.value() >= palette[i].luminance.value()
                >= palette[q].luminance.value(),
{
    let (p, q) = choose|p: int, q: int|
        #![trigger is_brightest(palette, p), is_darkest(palette, q)]
        is_brightest(palette, p) && is_darkest(palette, q) && base00 == palette[p].color && base05
            == palette[q].color;
    assert(palette[p].luminance.value() >= palette[i].luminance.value()
        >= palette[q].luminance.value());
}

/// A generated scheme has sixteen colors, each under its own name and in its place.
pub proof fn generated_scheme_is_complete<S: Fn(Hct) -> Argb>(
    palette: Seq<PaletteColor>,
    material_scheme: Option<MaterialScheme>,
    source_color: Option<Argb>,
    harmonization: Harmonization,
    dark: bool,
    solve: &S,
    entries: Seq<(Seq<char>, Argb)>,
)
    requires
        may_generate(palette, material_scheme, source_color, harmonization, dark, solve, entries),
    ensures
        entries.len() == 16,
        forall|i: int| 0 <= i < 16 ==> (#[trigger] entries[i]).0 == scheme::names()[i],
{
}

/// With a Material scheme the first color of a generated scheme is its lowest surface, and the
/// seventh its primary color.
pub proof fn themed_scheme_meets_its_ends<S: Fn(Hct) -> Argb>(
    palette: Seq<PaletteColor>,
    material: MaterialScheme,
    source_color: Option<Argb>,
    harmonization: Harmonization,
    dark: bool,
    solve: &S,
    entries: Seq<(Seq<char>, Argb)>,
)
    requires
        may_generate(palette, Some(material), source_color, harmonization, dark, solve, entries),
    ensures
        entries[0].1 == grays::opaque(material.surface_container_lowest),
        entries[6].1 == grays::opaque(material.primary),
{
    let (base00, base05, colors) = choose|base00: Rgb, base05: Rgb, colors: Seq<Argb>|
        {
            &&& #[trigger] are_ends(palette, Some(material), base00, base05)
            &&& #[trigger] accents::may_assign(
                argbs_of(palette),
                source_color,
                harmonization,
                dark,
                solve,
                colors,
            )
            &&& entries == scheme::scheme_of(grays::grays_of(base00, base05), colors)
        };
    material_ramp_meets_its_ends(palette, material, base00, base05);
}

} // verus!
