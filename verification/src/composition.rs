//! What schemes are composed of, in terms of the image, the palette or the color they come from.
use indexmap::IndexMap;
use vstd::arithmetic::power2::*;
use vstd::prelude::*;

use crate::accents;
use crate::backend::{Backend, Extractor, PaletteBackend};
use crate::binary64;
use crate::binary64::Binary64;
use crate::celebi::CelebiBackend;
use crate::circle;
use crate::color::{Argb, Hct, Hsl, Rgb};
use crate::error::{Report, SchemeError};
use crate::exactness;
use crate::generate;
use crate::generate::ColorFormat;
use crate::grays;
use crate::harmonization::Harmonization;
use crate::measure;
use crate::nearness;
use crate::palette;
use crate::palette::{MaterialScheme, PaletteColor, Theme};
use crate::raster::RgbImage;
use crate::scheme;
use crate::scheme::Schemes;
use crate::selection;
use crate::single;
use crate::single::ColorReading;

verus! {

/// The name of color `i`: the word "base" and the index in two digits of base 16.
pub open spec fn is_name(i: int, name: Seq<char>) -> bool {
    &&& name.len() == 6
    &&& name[0] == 'b' && name[1] == 'a' && name[2] == 's' && name[3] == 'e' && name[4] == '0'
    &&& i < 10 ==> name[5] as int == '0' as int + i
    &&& i >= 10 ==> name[5] as int == 'a' as int + (i - 10)
}

/// The names count from base00 to base0f.
pub proof fn names_count(i: int)
    requires
        0 <= i < 16,
    ensures
        scheme::names().len() == 16,
        is_name(i, scheme::names()[i]),
{
    reveal_strlit("base00");
    reveal_strlit("base01");
    reveal_strlit("base02");
    reveal_strlit("base03");
    reveal_strlit("base04");
    reveal_strlit("base05");
    reveal_strlit("base06");
    reveal_strlit("base07");
    reveal_strlit("base08");
    reveal_strlit("base09");
    reveal_strlit("base0a");
    reveal_strlit("base0b");
    reveal_strlit("base0c");
    reveal_strlit("base0d");
    reveal_strlit("base0e");
    reveal_strlit("base0f");
}

/// The entries are sixteen colors under their names: a ramp that steps evenly from `first` through
/// `second`, and the accents.
pub open spec fn is_scheme(
    entries: Seq<(Seq<char>, Argb)>,
    first: Rgb,
    second: Rgb,
    accents: Seq<Argb>,
) -> bool {
    &&& entries.len() == 16
    &&& forall|i: int| 0 <= i < 16 ==> is_name(i, (#[trigger] entries[i]).0)
    &&& forall|i: int|
        0 <= i < 8 ==> exactness::is_step(first, second, i, (#[trigger] entries[i]).1)
    &&& forall|i: int| 8 <= i < 16 ==> (#[trigger] entries[i]).1 == accents[i - 8]
}

/// A ramp and accents that are put together are such a scheme.
pub proof fn schemes_are_put_together(first: Rgb, second: Rgb, accents: Seq<Argb>)
    requires
        exactness::in_channels(first),
        exactness::in_channels(second),
    ensures
        is_scheme(
            scheme::scheme_of(grays::grays_of(first, second), accents),
            first,
            second,
            accents,
        ),
{
    let entries = scheme::scheme_of(grays::grays_of(first, second), accents);
    assert forall|i: int| 0 <= i < 16 implies is_name(i, (#[trigger] entries[i]).0) by {
        names_count(i);
    }
    assert forall|i: int| 0 <= i < 8 implies exactness::is_step(
        first,
        second,
        i,
        (#[trigger] entries[i]).1,
    ) by {
        exactness::ramp_is_evenly_spaced(first, second, i);
    }
}

/// The channels are those of the color, as whole numbers.
pub open spec fn shows(rgb: Rgb, color: Argb) -> bool {
    &&& rgb.red.value() == color.red * binary64::one()
    &&& rgb.green.value() == color.green * binary64::one()
    &&& rgb.blue.value() == color.blue * binary64::one()
}

/// The ramp runs from the lowest surface of the Material scheme through its primary color; without
/// one from the brightest color of the palette, the first of equally bright ones, through the
/// darkest, the last of equally dark ones.
pub open spec fn runs_between(
    colors: Seq<PaletteColor>,
    material: Option<MaterialScheme>,
    first: Rgb,
    second: Rgb,
) -> bool {
    match material {
        Some(m) => shows(first, m.surface_container_lowest) && shows(second, m.primary),
        None => exists|p: int, q: int|
            {
                &&& 0 <= p < colors.len() && 0 <= q < colors.len()
                &&& (#[trigger] colors[p]).color == first
                &&& (#[trigger] colors[q]).color == second
                &&& forall|j: int|
                    0 <= j < colors.len() ==> {
                        let x = (#[trigger] colors[j]).luminance.value();
                        &&& x <= colors[p].luminance.value()
                        &&& j < p ==> x < colors[p].luminance.value()
                        &&& x >= colors[q].luminance.value()
                        &&& j > q ==> x > colors[q].luminance.value()
                    }
            },
    }
}

/// The ends of the ramp are these.
pub proof fn ramps_run_between(
    colors: Seq<PaletteColor>,
    material: Option<MaterialScheme>,
    first: Rgb,
    second: Rgb,
)
    requires
        palette::are_ends(colors, material, first, second),
        material is None ==> forall|i: int|
            0 <= i < colors.len() ==> exactness::in_channels((#[trigger] colors[i]).color),
    ensures
        runs_between(colors, material, first, second),
        exactness::in_channels(first),
        exactness::in_channels(second),
{
    match material {
        Some(m) => {
            exactness::whole_channels_are_the_numbers(first, m.surface_container_lowest);
            exactness::whole_channels_are_the_numbers(second, m.primary);
        },
        None => {
            let (p, q) = choose|p: int, q: int|
                #![trigger palette::is_brightest(colors, p), palette::is_darkest(colors, q)]
                palette::is_brightest(colors, p) && palette::is_darkest(colors, q) && first
                    == colors[p].color && second == colors[q].color;
            assert(colors[p].color == first && colors[q].color == second);
            assert forall|j: int| 0 <= j < colors.len() implies {
                let x = (#[trigger] colors[j]).luminance.value();
                &&& x <= colors[p].luminance.value()
                &&& j < p ==> x < colors[p].luminance.value()
                &&& x >= colors[q].luminance.value()
                &&& j > q ==> x > colors[q].luminance.value()
            } by {}
        },
    }
}

/// The entries are a scheme of the palette: a ramp between its ends, and its accents.
pub open spec fn is_palette_scheme<S: Fn(Hct) -> Argb>(
    colors: Seq<PaletteColor>,
    material: Option<MaterialScheme>,
    source_color: Option<Argb>,
    level: Harmonization,
    dark: bool,
    solve: &S,
    entries: Seq<(Seq<char>, Argb)>,
) -> bool {
    exists|first: Rgb, second: Rgb, argbs: Seq<Argb>, accents: Seq<Argb>|
        {
            &&& #[trigger] runs_between(colors, material, first, second)
            &&& argbs.len() == colors.len()
            &&& forall|i: int| 0 <= i < colors.len() ==> #[trigger] argbs[i] == colors[i].argb
            &&& #[trigger] selection::are_palette_accents(
                argbs,
                source_color,
                level,
                dark,
                solve,
                accents,
            )
            &&& is_scheme(entries, first, second, accents)
        }
}

/// What is generated from a palette is such a scheme.
pub proof fn palettes_give_schemes<S: Fn(Hct) -> Argb>(
    colors: Seq<PaletteColor>,
    material: Option<MaterialScheme>,
    source_color: Option<Argb>,
    level: Harmonization,
    dark: bool,
    solve: &S,
    entries: Seq<(Seq<char>, Argb)>,
)
    requires
        palette::may_generate(colors, material, source_color, level, dark, solve, entries),
        material is None ==> forall|i: int|
            0 <= i < colors.len() ==> exactness::in_channels((#[trigger] colors[i]).color),
    ensures
        is_palette_scheme(colors, material, source_color, level, dark, solve, entries),
{
    let argbs = palette::argbs_of(colors);
    let (first, second, accents) = choose|first: Rgb, second: Rgb, accents: Seq<Argb>|
        {
            &&& #[trigger] palette::are_ends(colors, material, first, second)
            &&& #[trigger] accents::may_assign(argbs, source_color, level, dark, solve, accents)
            &&& entries == scheme::scheme_of(grays::grays_of(first, second), accents)
        };
    ramps_run_between(colors, material, first, second);
    selection::accents_of_a_palette(argbs, source_color, level, dark, solve, accents);
    schemes_are_put_together(first, second, accents);
    assert(runs_between(colors, material, first, second));
    assert(selection::are_palette_accents(argbs, source_color, level, dark, solve, accents));
}

/// The two schemes of a palette: with a theme the dark one takes its ends from the dark scheme of
/// the theme, and the light one from its light scheme, and both take its source color.
pub open spec fn are_theme_schemes<S: Fn(Hct) -> Argb>(
    colors: Seq<PaletteColor>,
    theme: Option<&Theme>,
    level: Harmonization,
    solve: &S,
    schemes: Schemes,
) -> bool {
    let (dark, light) = (scheme::entries(schemes.dark), scheme::entries(schemes.light));
    match theme {
        Some(t) => {
            &&& is_palette_scheme(colors, Some(t.dark), Some(t.source), level, true, solve, dark)
            &&& is_palette_scheme(colors, Some(t.light), Some(t.source), level, false, solve, light)
        },
        None => {
            &&& is_palette_scheme(colors, None, None, level, true, solve, dark)
            &&& is_palette_scheme(colors, None, None, level, false, solve, light)
        },
    }
}

/// The schemes that are generated from a palette are these.
pub proof fn palettes_give_both_schemes<S: Fn(Hct) -> Argb>(
    colors: Seq<PaletteColor>,
    theme: Option<&Theme>,
    level: Harmonization,
    solve: &S,
    schemes: Schemes,
)
    requires
        generate::are_palette_schemes(colors, theme, level, solve, schemes),
        theme is None ==> forall|i: int|
            0 <= i < colors.len() ==> exactness::in_channels((#[trigger] colors[i]).color),
    ensures
        are_theme_schemes(colors, theme, level, solve, schemes),
{
    let (dark, light) = (scheme::entries(schemes.dark), scheme::entries(schemes.light));
    match theme {
        Some(t) => {
            let source = Some(t.source);
            palettes_give_schemes(colors, Some(t.dark), source, level, true, solve, dark);
            palettes_give_schemes(colors, Some(t.light), source, level, false, solve, light);
        },
        None => {
            palettes_give_schemes(colors, None, None, level, true, solve, dark);
            palettes_give_schemes(colors, None, None, level, false, solve, light);
        },
    }
}

/// The colors of the palette are all there, each with the 8-bit color and the luminance that were
/// read of it.
pub open spec fn are_read<R: Fn(Rgb) -> (Argb, Binary64)>(
    palette: Seq<Rgb>,
    read: &R,
    colors: Seq<PaletteColor>,
) -> bool {
    &&& colors.len() == palette.len()
    &&& forall|i: int|
        0 <= i < colors.len() ==> (#[trigger] colors[i]).color == palette[i] && read.ensures(
            (palette[i],),
            (colors[i].argb, colors[i].luminance),
        )
}

/// The color can stand at an end of a ramp.
pub open spec fn is_usable(color: PaletteColor) -> bool {
    &&& color.color.red.finite() && color.color.green.finite() && color.color.blue.finite()
    &&& exactness::in_channels(color.color)
    &&& color.luminance.number()
}

/// Ends can be found in every palette that has a color and only usable ones, and in no other.
pub proof fn usable_palettes_have_ends(colors: Seq<PaletteColor>)
    ensures
        palette::gives_ends(colors) <==> colors.len() > 0 && forall|i: int|
            0 <= i < colors.len() ==> is_usable(#[trigger] colors[i]),
{
    assert forall|i: int| 0 <= i < colors.len() implies is_usable(#[trigger] colors[i])
        == colors[i].valid() by {}
    if palette::gives_ends(colors) {
        assert forall|i: int| 0 <= i < colors.len() implies is_usable(#[trigger] colors[i]) by {
            assert(colors[i].valid());
        }
    }
}

/// What comes of an image: the schemes of its palette; an error about the palette where there is
/// no theme, and the palette is empty or has a color that is not usable; and an error about a color
/// that is misread, of the palette or of the theme. Nothing else comes of it.
pub proof fn images_give_schemes<
    W: PaletteBackend,
    R: Fn(Rgb) -> (Argb, Binary64),
    S: Fn(Hct) -> Argb,
>(
    image: RgbImage,
    extractor: Extractor<W>,
    theme: Option<&Theme>,
    level: Harmonization,
    read: &R,
    solve: &S,
    r: Result<Schemes, SchemeError>,
)
    requires
        generate::may_image(image, extractor, theme, level, read, solve, r),
    ensures
        r matches Ok(schemes) ==> exists|palette: Seq<Rgb>, colors: Seq<PaletteColor>|
            {
                &&& #[trigger] extractor.may_extract(image, palette)
                &&& #[trigger] are_read(palette, read, colors)
                &&& theme is None ==> colors.len() > 0
                &&& are_theme_schemes(colors, theme, level, solve, schemes)
            },
        r matches Err(e) ==> match e {
            SchemeError::Palette => theme is None && exists|
                palette: Seq<Rgb>,
                colors: Seq<PaletteColor>,
            |
                {
                    &&& #[trigger] extractor.may_extract(image, palette)
                    &&& #[trigger] are_read(palette, read, colors)
                    &&& colors.len() == 0 || exists|i: int|
                        0 <= i < colors.len() && !is_usable(#[trigger] colors[i])
                },
            SchemeError::Range { color } => accents::may_misread(color) && ((theme matches Some(t)
                && t.source == color) || exists|palette: Seq<Rgb>, colors: Seq<PaletteColor>|
                {
                    &&& #[trigger] extractor.may_extract(image, palette)
                    &&& #[trigger] are_read(palette, read, colors)
                    &&& exists|i: int| 0 <= i < colors.len() && (#[trigger] colors[i]).argb == color
                }),
            _ => false,
        },
{
    match r {
        Ok(schemes) => {
            let colors = choose|colors: Seq<PaletteColor>| #[trigger]
                generate::may_see(image, extractor, read, colors) && generate::has_ends(
                    colors,
                    theme,
                ) && generate::are_palette_schemes(colors, theme, level, solve, schemes);
            let palette = choose|palette: Seq<Rgb>| #[trigger]
                extractor.may_extract(image, palette) && generate::may_read_palette(
                    palette,
                    read,
                    colors,
                );
            assert(are_read(palette, read, colors));
            usable_palettes_have_ends(colors);
            assert(theme is None ==> forall|i: int|
                0 <= i < colors.len() ==> is_usable(#[trigger] colors[i]));
            palettes_give_both_schemes(colors, theme, level, solve, schemes);
        },
        Err(SchemeError::Palette) => {
            let colors = choose|colors: Seq<PaletteColor>| #[trigger]
                generate::may_see(image, extractor, read, colors) && !generate::has_ends(
                    colors,
                    theme,
                );
            let palette = choose|palette: Seq<Rgb>| #[trigger]
                extractor.may_extract(image, palette) && generate::may_read_palette(
                    palette,
                    read,
                    colors,
                );
            assert(are_read(palette, read, colors));
            usable_palettes_have_ends(colors);
        },
        Err(SchemeError::Range { color }) => {
            if generate::source_of(theme) != Some(color) {
                let colors = choose|colors: Seq<PaletteColor>| #[trigger]
                    generate::may_see(image, extractor, read, colors) && generate::has_ends(
                        colors,
                        theme,
                    ) && palette::argbs_of(colors).contains(color);
                let palette = choose|palette: Seq<Rgb>| #[trigger]
                    extractor.may_extract(image, palette) && generate::may_read_palette(
                        palette,
                        read,
                        colors,
                    );
                assert(are_read(palette, read, colors));
                let argbs = palette::argbs_of(colors);
                let i = choose|i: int| 0 <= i < argbs.len() && argbs[i] == color;
                assert(colors[i].argb == color);
            }
        },
        _ => {},
    }
}

/// What a source that cannot be made into schemes is answered: what was tried, on what, and why it
/// went wrong. Schemes that were made are handed on as they are.
pub proof fn failures_are_told(
    trying: Seq<char>,
    name: Seq<char>,
    result: Result<Schemes, SchemeError>,
    r: Result<Schemes, Report>,
)
    requires
        generate::is_reported(trying, name, result, r),
    ensures
        result matches Ok(schemes) ==> r == Ok::<Schemes, Report>(schemes),
        result matches Err(e) ==> {
            &&& r matches Err(Report::Scheme { message, cause }) && cause == e && message@.len()
                == trying.len() + name.len() && message@.take(trying.len() as int) == trying
                && message@.skip(trying.len() as int) == name
        },
{
    if let Err(Report::Scheme { message, cause }) = r {
        assert(message@.take(trying.len() as int) =~= trying);
        assert(message@.skip(trying.len() as int) =~= name);
    }
}

/// What comes of a decoded image: what was wrong with decoding it is handed on; an image that is
/// too large is refused with its width; of any other the schemes are made, and a failure is told
/// with the name of the image.
pub proof fn decoded_images_give_schemes<
    W: PaletteBackend,
    R: Fn(Rgb) -> (Argb, Binary64),
    S: Fn(Hct) -> Argb,
>(
    decoded: Result<RgbImage, image::ImageError>,
    name: Seq<char>,
    extractor: Extractor<W>,
    theme: Option<&Theme>,
    level: Harmonization,
    read: &R,
    solve: &S,
    r: Result<Schemes, Report>,
)
    requires
        generate::may_finish(decoded, name, extractor, theme, level, read, solve, r),
    ensures
        decoded matches Err(e) ==> r == Err::<Schemes, Report>(Report::Decode(e)),
        decoded matches Ok(image) ==> {
            &&& r matches Ok(schemes) ==> extractor.accepts(image) && generate::may_image(
                image,
                extractor,
                theme,
                level,
                read,
                solve,
                Ok::<Schemes, SchemeError>(schemes),
            )
            &&& r matches Err(report) ==> {
                &&& report matches Report::Scheme { message, cause } && message@
                    == "Could not generate base16 scheme from image: "@ + name && (
                if extractor.accepts(image) {
                    generate::may_image(
                        image,
                        extractor,
                        theme,
                        level,
                        read,
                        solve,
                        Err::<Schemes, SchemeError>(cause),
                    )
                } else {
                    cause matches SchemeError::Size { width } && width == image.width
                })
            }
        },
{
}

/// The extractor of a kind is the given one that clusters, or the quantizer with up to 16 colors
/// and a width of 300.
pub proof fn kinds_of_extraction<W: PaletteBackend>(wal: W)
    ensures
        generate::extractor_of(Backend::Wal, wal) == Extractor::Wal(wal),
        generate::extractor_of(Backend::Celebi, wal) == Extractor::<W>::Celebi(
            CelebiBackend { max_colors: 16, resize_width: 300 },
        ),
{
}

/// `dim` and `bright` are the shades of a color: the dim one has three tenths of its saturation and
/// fifteen of its lightness, and the bright one seven and two.
pub open spec fn are_shades<C: Fn(Hsl) -> Rgb>(
    hsl: Hsl,
    convert: &C,
    dim: Rgb,
    bright: Rgb,
) -> bool {
    exists|low: Hsl, high: Hsl|
        {
            &&& #[trigger] convert.ensures((low,), dim)
            &&& #[trigger] convert.ensures((high,), bright)
            &&& low.hue == hsl.hue && high.hue == hsl.hue
            &&& exactness::is_tenths(hsl.saturation.value(), 3, low.saturation.value())
            &&& exactness::is_tenths(hsl.lightness.value(), 15, low.lightness.value())
            &&& exactness::is_tenths(hsl.saturation.value(), 7, high.saturation.value())
            &&& exactness::is_tenths(hsl.lightness.value(), 2, high.lightness.value())
        }
}

/// The accents are solved from the targets of a measurement of the color, one for one.
pub open spec fn are_color_accents<S: Fn(Hct) -> Argb>(
    color: Argb,
    solve: &S,
    accents: Seq<Argb>,
) -> bool {
    exists|hct: Hct, targets: Seq<Hct>|
        {
            &&& #[trigger] measure::hct_readings(color.red, color.green, color.blue).contains(
                (hct.hue.bits, hct.chroma.bits, hct.tone.bits),
            )
            &&& #[trigger] single::are_targets(hct, targets)
            &&& accents.len() == 8
            &&& forall|i: int| 0 <= i < 8 ==> solve.ensures((targets[i],), #[trigger] accents[i])
        }
}

/// The reading of a color has its shades and its accents.
pub proof fn readings_have_shades_and_accents<C: Fn(Hsl) -> Rgb, S: Fn(Hct) -> Argb>(
    hsl: Hsl,
    color: Argb,
    convert: &C,
    solve: &S,
    reading: ColorReading,
)
    requires
        single::may_read_color(hsl, color, convert, solve, reading),
    ensures
        are_shades(hsl, convert, reading.dim, reading.bright),
        are_color_accents(color, solve, reading.accents@),
{
    let low = choose|target: Hsl| #[trigger]
        single::is_shade(hsl, 3, 15, target) && convert.ensures((target,), reading.dim);
    let high = choose|target: Hsl| #[trigger]
        single::is_shade(hsl, 7, 2, target) && convert.ensures((target,), reading.bright);
    exactness::shade_scales(hsl, 3, 15, low);
    exactness::shade_scales(hsl, 7, 2, high);
    assert(convert.ensures((low,), reading.dim) && convert.ensures((high,), reading.bright));
    let accents = reading.accents@;
    let (hct, targets) = choose|hct: Hct, targets: Seq<Hct>|
        {
            &&& #[trigger] measure::may_measure(color, hct)
            &&& #[trigger] single::are_targets(hct, targets)
            &&& accents.len() == 8
            &&& forall|i: int| 0 <= i < 8 ==> solve.ensures((targets[i],), #[trigger] accents[i])
        };
    assert(measure::hct_readings(color.red, color.green, color.blue).contains(
        (hct.hue.bits, hct.chroma.bits, hct.tone.bits),
    ));
}

/// A color that is read as ordinary numbers, and has ordinary measurements, and whose shades are
/// converted to channels from 0 to 255, does not fail.
pub proof fn ordinary_colors_do_not_fail<C: Fn(Hsl) -> Rgb>(hsl: Hsl, color: Argb, convert: &C)
    requires
        hsl.saturation.finite() && hsl.lightness.finite(),
        nearness::size(hsl.saturation.value()) < pow2(1500),
        nearness::size(hsl.lightness.value()) < pow2(1500),
        forall|hct: Hct| #[trigger]
            measure::may_measure(color, hct) ==> {
                &&& hct.hue.finite() && hct.chroma.finite() && hct.tone.finite()
                &&& circle::on_circle(hct.hue.value())
                &&& nearness::size(hct.chroma.value()) < pow2(1500)
                &&& nearness::size(hct.tone.value()) < pow2(1500)
            },
        forall|target: Hsl, rgb: Rgb| #[trigger]
            convert.ensures((target,), rgb) ==> {
                &&& rgb.red.finite() && rgb.green.finite() && rgb.blue.finite()
                &&& exactness::in_channels(rgb)
            },
    ensures
        !single::may_fail(hsl, color, convert),
{
    exactness::ordinary_shades_are_valid(hsl);
    selection::ordinary_colors_are_read(color);
    assert forall|target: Hsl, rgb: Rgb| #[trigger]
        convert.ensures((target,), rgb) implies rgb.valid() by {
        exactness::ordinary_colors_are_valid(rgb);
    }
}

/// Hue, saturation and lightness of a color are the numbers that were read of its channels.
pub open spec fn is_hsl(color: Argb, hsl: Hsl) -> bool {
    (hsl.hue.bits, hsl.saturation.bits, hsl.lightness.bits) == measure::hsl_bits_of(
        color.red,
        color.green,
        color.blue,
    )
}

/// What comes of a color: two schemes with its accents, whose ramps run between its two shades in
/// opposite directions; or an error, where it may fail. A text that is no color is answered with
/// what is wrong with it.
pub proof fn colors_give_schemes<C: Fn(Hsl) -> Rgb, S: Fn(Hct) -> Argb>(
    color: ColorFormat,
    convert: &C,
    solve: &S,
    r: Result<Schemes, SchemeError>,
)
    requires
        generate::may_color(color, convert, solve, r),
    ensures
        color.reading matches Err(reason) ==> (r matches Err(SchemeError::Color { reason: told })
            && told@ == reason@),
        color.reading matches Ok(argb) ==> exists|hsl: Hsl|
            {
                &&& #[trigger] is_hsl(argb, hsl)
                &&& r matches Ok(schemes) ==> exists|dim: Rgb, bright: Rgb, accents: Seq<Argb>|
                    {
                        &&& #[trigger] are_shades(hsl, convert, dim, bright)
                        &&& #[trigger] are_color_accents(argb, solve, accents)
                        &&& is_scheme(scheme::entries(schemes.dark), dim, bright, accents)
                        &&& is_scheme(scheme::entries(schemes.light), bright, dim, accents)
                    }
                &&& r matches Err(e) ==> single::may_fail(hsl, argb, convert) && (
                e matches SchemeError::Range { color: told } && told == argb)
            },
{
    if let Ok(argb) = color.reading {
        let hsl = measure::hsl_of(argb);
        assert(is_hsl(argb, hsl));
        if let Ok(schemes) = r {
            let reading = choose|reading: ColorReading| #[trigger]
                single::may_read_color(hsl, argb, convert, solve, reading) && reading.valid()
                    && generate::are_color_schemes(reading, schemes);
            readings_have_shades_and_accents(hsl, argb, convert, solve, reading);
            schemes_are_put_together(reading.dim, reading.bright, reading.accents@);
            schemes_are_put_together(reading.bright, reading.dim, reading.accents@);
            assert(are_shades(hsl, convert, reading.dim, reading.bright));
            assert(are_color_accents(argb, solve, reading.accents@));
        }
    }
}

/// What comes of one color and one kind of scheme: the dark scheme runs from its dim shade through
/// its bright one, and the light scheme from the bright shade through the dim one.
pub proof fn single_colors_give_schemes<
    H: Fn(Rgb) -> Hsl,
    A: Fn(Rgb) -> Argb,
    C: Fn(Hsl) -> Rgb,
    S: Fn(Hct) -> Argb,
>(
    color: Rgb,
    dark: bool,
    hsl_of: &H,
    argb_of: &A,
    convert: &C,
    solve: &S,
    r: Result<IndexMap<String, Argb>, SchemeError>,
)
    requires
        single::may_color(color, dark, hsl_of, argb_of, convert, solve, r),
    ensures
        exists|hsl: Hsl, argb: Argb|
            {
                &&& #[trigger] hsl_of.ensures((color,), hsl)
                &&& #[trigger] argb_of.ensures((color,), argb)
                &&& r matches Ok(map) ==> exists|dim: Rgb, bright: Rgb, accents: Seq<Argb>|
                    {
                        &&& #[trigger] are_shades(hsl, convert, dim, bright)
                        &&& #[trigger] are_color_accents(argb, solve, accents)
                        &&& dark ==> is_scheme(scheme::entries(map), dim, bright, accents)
                        &&& !dark ==> is_scheme(scheme::entries(map), bright, dim, accents)
                    }
                &&& r matches Err(e) ==> single::may_fail(hsl, argb, convert) && (
                e matches SchemeError::Range { color: told } && told == argb)
            },
{
    let (hsl, argb) = choose|hsl: Hsl, argb: Argb|
        {
            &&& #[trigger] hsl_of.ensures((color,), hsl)
            &&& #[trigger] argb_of.ensures((color,), argb)
            &&& match r {
                Ok(map) => exists|reading: ColorReading| #[trigger]
                    single::may_read_color(hsl, argb, convert, solve, reading) && reading.valid()
                        && scheme::entries(map) == single::color_scheme_of(reading, dark),
                Err(e) => e == (SchemeError::Range { color: argb }) && single::may_fail(
                    hsl,
                    argb,
                    convert,
                ),
            }
        };
    if let Ok(map) = r {
        let reading = choose|reading: ColorReading| #[trigger]
            single::may_read_color(hsl, argb, convert, solve, reading) && reading.valid()
                && scheme::entries(map) == single::color_scheme_of(reading, dark);
        readings_have_shades_and_accents(hsl, argb, convert, solve, reading);
        schemes_are_put_together(reading.dim, reading.bright, reading.accents@);
        schemes_are_put_together(reading.bright, reading.dim, reading.accents@);
        assert(are_shades(hsl, convert, reading.dim, reading.bright));
        assert(are_color_accents(argb, solve, reading.accents@));
    }
    assert(hsl_of.ensures((color,), hsl) && argb_of.ensures((color,), argb));
}

} // verus!
