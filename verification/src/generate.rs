//! Dark and light schemes from images and from colors.
use vstd::prelude::*;

use crate::accents;
use crate::backend::{Backend, Extractor, PaletteBackend};
use crate::binary64::Binary64;
use crate::celebi::CelebiBackend;
use crate::color::{Argb, Hct, Hsl, Rgb};
use crate::error::{Report, SchemeError};
use crate::grays;
use crate::harmonization::Harmonization;
use crate::measure;
use crate::palette;
use crate::palette::{MaterialScheme, PaletteColor, Theme};
use crate::raster;
use crate::raster::RgbImage;
use crate::scheme;
use crate::scheme::Schemes;
use crate::single;
use crate::single::ColorReading;

verus! {

/// A color as it was written, with what it was read as.
#[derive(Debug)]
pub struct ColorFormat {
    /// The written color.
    pub string: String,
    /// The color, or what is wrong with it.
    pub reading: Result<Argb, String>,
}

impl ColorFormat {
    /// The written color.
    pub fn get_string(&self) -> (r: String)
        ensures
            r@ == self.string@,
    {
        self.string.clone()
    }
}

/// The color that was written, if it is one.
pub fn get_source_color_from_color(color: &ColorFormat) -> (r: Result<Argb, SchemeError>)
    ensures
        match (r, color.reading) {
            (Ok(argb), Ok(reading)) => argb == reading,
            (Err(e), Err(reason)) => e matches SchemeError::Color { reason: told } && told@
                == reason@,
            _ => false,
        },
{
    match &color.reading {
        Ok(argb) => Ok(*argb),
        Err(reason) => Err(SchemeError::Color { reason: reason.clone() }),
    }
}

/// What schemes are made from.
#[derive(Debug)]
pub enum Source {
    /// A description of a scheme, from which none is made.
    Json {
        /// Where it is.
        path: String,
    },
    /// An image in a file.
    Image {
        /// Where it is.
        path: String,
        /// What the file holds.
        bytes: Vec<u8>,
    },
    /// A color.
    Color(ColorFormat),
    /// An image on the web.
    WebImage {
        /// Where it is.
        url: String,
        /// What was received.
        bytes: Vec<u8>,
    },
}

/// `colors` may be read of the palette, one by one.
pub open spec fn may_read_palette<R: Fn(Rgb) -> (Argb, Binary64)>(
    palette: Seq<Rgb>,
    read: &R,
    colors: Seq<PaletteColor>,
) -> bool {
    &&& colors.len() == palette.len()
    &&& forall|i: int|
        0 <= i < palette.len() ==> (#[trigger] colors[i]).color == palette[i] && read.ensures(
            (palette[i],),
            (colors[i].argb, colors[i].luminance),
        )
}

/// Reads the colors of a palette. `read` finds the 8-bit color and the luminance of a color.
pub fn read_palette<R: Fn(Rgb) -> (Argb, Binary64)>(
    palette: &Vec<Rgb>,
    read: &R,
) -> (colors: Vec<PaletteColor>)
    requires
        forall|color: Rgb| read.requires((color,)),
    ensures
        may_read_palette(palette@, read, colors@),
{
    let mut colors: Vec<PaletteColor> = Vec::new();
    let mut i: usize = 0;
    while i < palette.len()
        invariant
            i <= palette.len(),
            colors@.len() == i,
            forall|color: Rgb| read.requires((color,)),
            forall|j: int|
                0 <= j < i ==> (#[trigger] colors@[j]).color == palette@[j] && read.ensures(
                    (palette@[j],),
                    (colors@[j].argb, colors@[j].luminance),
                ),
        decreases palette.len() - i,
    {
        let color: Rgb = palette[i];
        let (argb, luminance): (Argb, Binary64) = read(color);
        colors.push(PaletteColor { color, argb, luminance });
        i = i + 1;
    }
    colors
}

/// The source color of a theme.
pub open spec fn source_of(theme: Option<&Theme>) -> Option<Argb> {
    match theme {
        Some(t) => Some(t.source),
        None => None,
    }
}

/// The dark or the light scheme of a theme.
pub open spec fn swatch_of(theme: Option<&Theme>, dark: bool) -> Option<MaterialScheme> {
    match theme {
        Some(t) => Some(
            if dark {
                t.dark
            } else {
                t.light
            },
        ),
        None => None,
    }
}

/// The schemes may be those of a palette that was read as `colors`.
pub open spec fn are_palette_schemes<S: Fn(Hct) -> Argb>(
    colors: Seq<PaletteColor>,
    theme: Option<&Theme>,
    harmonization: Harmonization,
    solve: &S,
    schemes: Schemes,
) -> bool {
    &&& palette::may_generate(
        colors,
        swatch_of(theme, true),
        source_of(theme),
        harmonization,
        true,
        solve,
        scheme::entries(schemes.dark),
    )
    &&& palette::may_generate(
        colors,
        swatch_of(theme, false),
        source_of(theme),
        harmonization,
        false,
        solve,
        scheme::entries(schemes.light),
    )
}

/// The dark and the light scheme of a palette.
pub fn generate_base16_schemes_from_palette<S: Fn(Hct) -> Argb>(
    colors: &Vec<PaletteColor>,
    theme: Option<&Theme>,
    harmonization: &Harmonization,
    solve: &S,
) -> (r: Result<Schemes, SchemeError>)
    requires
        theme is None ==> palette::gives_ends(colors@),
        forall|target: Hct| solve.requires((target,)),
    ensures
        match r {
            Ok(schemes) => are_palette_schemes(colors@, theme, *harmonization, solve, schemes),
            Err(e) => e matches SchemeError::Range { color } && accents::may_misread(color) && (
            palette::argbs_of(colors@).contains(color) || source_of(theme) == Some(color)),
        },
{
    let source_color: Option<Argb> = match theme {
        Some(t) => Some(t.source),
        None => None,
    };
    let dark_swatch: Option<&MaterialScheme> = match theme {
        Some(t) => Some(&t.dark),
        None => None,
    };
    let dark = match palette::generate_base16_scheme_from_palette(
        colors,
        dark_swatch,
        source_color,
        harmonization,
        true,
        solve,
    ) {
        Ok(dark) => dark,
        Err(e) => {
            return Err(e);
        },
    };
    let light_swatch: Option<&MaterialScheme> = match theme {
        Some(t) => Some(&t.light),
        None => None,
    };
    match palette::generate_base16_scheme_from_palette(
        colors,
        light_swatch,
        source_color,
        harmonization,
        false,
        solve,
    ) {
        Ok(light) => Ok(Schemes { dark, light }),
        Err(e) => Err(e),
    }
}

/// The extractor of a kind, where `wal` is the one that clusters.
pub open spec fn extractor_of<W: PaletteBackend>(backend: Backend, wal: W) -> Extractor<W> {
    match backend {
        Backend::Wal => Extractor::Wal(wal),
        Backend::Celebi => Extractor::Celebi(CelebiBackend::preset()),
    }
}

/// `colors` may be the palette of the image, as it was read.
pub open spec fn may_see<W: PaletteBackend, R: Fn(Rgb) -> (Argb, Binary64)>(
    image: RgbImage,
    extractor: Extractor<W>,
    read: &R,
    colors: Seq<PaletteColor>,
) -> bool {
    exists|palette: Seq<Rgb>| #[trigger]
        extractor.may_extract(image, palette) && may_read_palette(palette, read, colors)
}

/// There are ends for the gray ramp, in the theme or in the palette.
pub open spec fn has_ends(colors: Seq<PaletteColor>, theme: Option<&Theme>) -> bool {
    theme is Some || palette::gives_ends(colors)
}

/// `r` may come of an image.
pub open spec fn may_image<
    W: PaletteBackend,
    R: Fn(Rgb) -> (Argb, Binary64),
    S: Fn(Hct) -> Argb,
>(
    image: RgbImage,
    extractor: Extractor<W>,
    theme: Option<&Theme>,
    harmonization: Harmonization,
    read: &R,
    solve: &S,
    r: Result<Schemes, SchemeError>,
) -> bool {
    match r {
        Ok(schemes) => exists|colors: Seq<PaletteColor>| #[trigger]
            may_see(image, extractor, read, colors) && has_ends(colors, theme)
                && are_palette_schemes(colors, theme, harmonization, solve, schemes),
        Err(SchemeError::Palette) => exists|colors: Seq<PaletteColor>| #[trigger]
            may_see(image, extractor, read, colors) && !has_ends(colors, theme),
        Err(SchemeError::Range { color }) => accents::may_misread(color) && (source_of(theme)
            == Some(color) || exists|colors: Seq<PaletteColor>| #[trigger]
            may_see(image, extractor, read, colors) && has_ends(colors, theme)
                && palette::argbs_of(colors).contains(color)),
        _ => false,
    }
}

/// The dark and the light scheme of an image. `wal` is the extractor that clusters, `read` finds
/// the 8-bit color and the luminance of a color, and `solve` the color that has given hue, chroma
/// and tone.
pub fn generate_base16_schemes_from_image<
    W: PaletteBackend,
    R: Fn(Rgb) -> (Argb, Binary64),
    S: Fn(Hct) -> Argb,
>(
    image: &RgbImage,
    backend: Backend,
    wal: W,
    theme: Option<&Theme>,
    harmonization: &Harmonization,
    read: &R,
    solve: &S,
) -> (r: Result<Schemes, SchemeError>)
    requires
        extractor_of(backend, wal).accepts(*image),
        forall|color: Rgb| read.requires((color,)),
        forall|target: Hct| solve.requires((target,)),
    ensures
        may_image(*image, extractor_of(backend, wal), theme, *harmonization, read, solve, r),
{
    let extractor: Extractor<W> = backend.create(wal);
    let palette: Vec<Rgb> = extractor.extract(image);
    let colors: Vec<PaletteColor> = read_palette(&palette, read);
    assert(may_see(*image, extractor, read, colors@));
    if theme.is_none() && !palette::check_ends(&colors) {
        return Err(SchemeError::Palette);
    }
    generate_base16_schemes_from_palette(&colors, theme, harmonization, solve)
}

/// The schemes are those of a color that was read.
pub open spec fn are_color_schemes(reading: ColorReading, schemes: Schemes) -> bool {
    &&& scheme::entries(schemes.dark) == single::color_scheme_of(reading, true)
    &&& scheme::entries(schemes.light) == single::color_scheme_of(reading, false)
}

/// `r` may come of a color.
pub open spec fn may_color<C: Fn(Hsl) -> Rgb, S: Fn(Hct) -> Argb>(
    color: ColorFormat,
    convert: &C,
    solve: &S,
    r: Result<Schemes, SchemeError>,
) -> bool {
    match color.reading {
        Ok(argb) => match r {
            Ok(schemes) => exists|reading: ColorReading| #[trigger]
                single::may_read_color(measure::hsl_of(argb), argb, convert, solve, reading)
                    && reading.valid() && are_color_schemes(reading, schemes),
            Err(e) => e == (SchemeError::Range { color: argb }) && single::may_fail(
                measure::hsl_of(argb),
                argb,
                convert,
            ),
        },
        Err(reason) => r matches Err(SchemeError::Color { reason: told }) && told@ == reason@,
    }
}

/// The dark and the light scheme of a color. `convert` finds the channels of a color with given
/// hue, saturation and lightness, and `solve` the color that has given hue, chroma and tone.
pub fn generate_base16_schemes_from_color<C: Fn(Hsl) -> Rgb, S: Fn(Hct) -> Argb>(
    color: &ColorFormat,
    convert: &C,
    solve: &S,
) -> (r: Result<Schemes, SchemeError>)
    requires
        forall|target: Hsl| convert.requires((target,)),
        forall|target: Hct| solve.requires((target,)),
    ensures
        may_color(*color, convert, solve, r),
{
    let source_color: Argb = match get_source_color_from_color(color) {
        Ok(argb) => argb,
        Err(e) => {
            return Err(e);
        },
    };
    let hsl: Hsl = measure::hsl(source_color);
    match single::read_color(&hsl, source_color, convert, solve) {
        Ok(reading) => {
            let dark = single::scheme_from_reading(&reading, true);
            let light = single::scheme_from_reading(&reading, false);
            Ok(Schemes { dark, light })
        },
        Err(e) => Err(e),
    }
}

/// `r` is `result`, with an error told to come of trying to make schemes of `name`.
pub open spec fn is_reported(
    trying: Seq<char>,
    name: Seq<char>,
    result: Result<Schemes, SchemeError>,
    r: Result<Schemes, Report>,
) -> bool {
    match (result, r) {
        (Ok(made), Ok(schemes)) => schemes == made,
        (Err(e), Err(Report::Scheme { message, cause })) => cause == e && message@ == trying + name,
        _ => false,
    }
}

/// Tells with an error what was tried, and on what.
fn report(trying: &str, name: &String, result: Result<Schemes, SchemeError>) -> (r: Result<
    Schemes,
    Report,
>)
    ensures
        is_reported(trying@, name@, result, r),
{
    match result {
        Ok(schemes) => Ok(schemes),
        Err(cause) => {
            let mut message: String = trying.to_string();
            message.append(name.as_str());
            Err(Report::Scheme { message, cause })
        },
    }
}

/// `r` may come of an image that was decoded from `name`, if it was.
pub open spec fn may_finish<
    W: PaletteBackend,
    R: Fn(Rgb) -> (Argb, Binary64),
    S: Fn(Hct) -> Argb,
>(
    decoded: Result<RgbImage, image::ImageError>,
    name: Seq<char>,
    extractor: Extractor<W>,
    theme: Option<&Theme>,
    harmonization: Harmonization,
    read: &R,
    solve: &S,
    r: Result<Schemes, Report>,
) -> bool {
    match decoded {
        Ok(image) => exists|result: Result<Schemes, SchemeError>|
            {
                &&& if extractor.accepts(image) {
                    may_image(image, extractor, theme, harmonization, read, solve, result)
                } else {
                    result == Err::<Schemes, SchemeError>(SchemeError::Size { width: image.width })
                }
                &&& #[trigger] is_reported(
                    "Could not generate base16 scheme from image: "@,
                    name,
                    result,
                    r,
                )
            },
        Err(e) => r == Err::<Schemes, Report>(Report::Decode(e)),
    }
}

/// The schemes of an image that was decoded from `name`, if it was.
pub fn finish_image<W: PaletteBackend, R: Fn(Rgb) -> (Argb, Binary64), S: Fn(Hct) -> Argb>(
    decoded: Result<RgbImage, image::ImageError>,
    name: &String,
    backend: Backend,
    wal: W,
    theme: Option<&Theme>,
    harmonization: &Harmonization,
    read: &R,
    solve: &S,
) -> (r: Result<Schemes, Report>)
    requires
        decoded matches Ok(image) ==> image.well_formed(),
        backend is Wal ==> forall|image: RgbImage|
            image.well_formed() ==> #[trigger] wal.accepts(image),
        forall|color: Rgb| read.requires((color,)),
        forall|target: Hct| solve.requires((target,)),
    ensures
        may_finish(
            decoded,
            name@,
            extractor_of(backend, wal),
            theme,
            *harmonization,
            read,
            solve,
            r,
        ),
{
    let image: RgbImage = match decoded {
        Ok(image) => image,
        Err(e) => {
            return Err(Report::Decode(e));
        },
    };
    let accepted: bool = match backend {
        Backend::Wal => true,
        Backend::Celebi => CelebiBackend::default().takes(&image),
    };
    let result: Result<Schemes, SchemeError> = if accepted {
        generate_base16_schemes_from_image(
            &image,
            backend,
            wal,
            theme,
            harmonization,
            read,
            solve,
        )
    } else {
        Err(SchemeError::Size { width: image.width })
    };
    report("Could not generate base16 scheme from image: ", name, result)
}

/// The dark and the light scheme of a source. `wal` is the extractor that clusters, `read` finds
/// the 8-bit color and the luminance of a color, `convert` the channels of a color with given hue,
/// saturation and lightness, and `solve` the color that has given hue, chroma and tone.
pub fn generate_base16_schemes<
    W: PaletteBackend,
    R: Fn(Rgb) -> (Argb, Binary64),
    C: Fn(Hsl) -> Rgb,
    S: Fn(Hct) -> Argb,
>(
    source: &Source,
    backend: Backend,
    wal: W,
    theme: Option<&Theme>,
    harmonization: &Harmonization,
    read: &R,
    convert: &C,
    solve: &S,
) -> (r: Result<Schemes, Report>)
    requires
        !(*source is Json),
        backend is Wal ==> forall|image: RgbImage|
            image.well_formed() ==> #[trigger] wal.accepts(image),
        forall|color: Rgb| read.requires((color,)),
        forall|target: Hsl| convert.requires((target,)),
        forall|target: Hct| solve.requires((target,)),
    ensures
        match *source {
            Source::Json { path } => false,
            Source::Image { path, bytes } => exists|decoded: Result<RgbImage, image::ImageError>|
                raster::may_decode(path@, bytes@, decoded) && #[trigger] may_finish(
                    decoded,
                    path@,
                    extractor_of(backend, wal),
                    theme,
                    *harmonization,
                    read,
                    solve,
                    r,
                ),
            Source::Color(color) => exists|result: Result<Schemes, SchemeError>|
                may_color(color, convert, solve, result) && #[trigger] is_reported(
                    "Could not generate base16 scheme from color: "@,
                    color.string@,
                    result,
                    r,
                ),
            Source::WebImage { url, bytes } => exists|
                decoded: Result<RgbImage, image::ImageError>,
            |
                raster::may_load(bytes@, decoded) && #[trigger] may_finish(
                    decoded,
                    url@,
                    extractor_of(backend, wal),
                    theme,
                    *harmonization,
                    read,
                    solve,
                    r,
                ),
        },
{
    match source {
        Source::Json { path: _ } => vstd::pervasive::unreached(),
        Source::Image { path, bytes } => {
            let decoded: Result<RgbImage, image::ImageError> = raster::decode(
                path.as_str(),
                bytes,
            );
            finish_image(decoded, path, backend, wal, theme, harmonization, read, solve)
        },
        Source::Color(color) => {
            let result: Result<Schemes, SchemeError> = generate_base16_schemes_from_color(
                color,
                convert,
                solve,
            );
            let written: String = color.get_string();
            report("Could not generate base16 scheme from color: ", &written, result)
        },
        Source::WebImage { url, bytes } => {
            let decoded: Result<RgbImage, image::ImageError> = raster::load(bytes);
            finish_image(decoded, url, backend, wal, theme, harmonization, read, solve)
        },
    }
}

/// The dark and the light scheme of a color have the same sixteen names in the same order and the
/// same accents, and their gray ramps mirror each other, up to one in each channel.
pub proof fn color_schemes_mirror(reading: ColorReading, schemes: Schemes)
    requires
        reading.valid(),
        are_color_schemes(reading, schemes),
    ensures
        ({
            let (dark, light) = (scheme::entries(schemes.dark), scheme::entries(schemes.light));
            &&& dark.len() == 16 && light.len() == 16
            &&& forall|i: int|
                0 <= i < 16 ==> (#[trigger] dark[i]).0 == scheme::names()[i] && light[i].0
                    == scheme::names()[i]
            &&& forall|i: int| 8 <= i < 16 ==> #[trigger] dark[i] == light[i]
            &&& forall|i: int|
                0 <= i <= 6 ==> grays::within_one((#[trigger] dark[i]).1, light[6 - i].1)
        }),
{
    let (dark, light) = (scheme::entries(schemes.dark), scheme::entries(schemes.light));
    assert forall|i: int| 0 <= i <= 6 implies grays::within_one(
        (#[trigger] dark[i]).1,
        light[6 - i].1,
    ) by {
        single::schemes_mirror_their_ramps(reading, i);
    }
}

} // verus!
