//! Whole schemes.
use base16::backend::{Backend, PaletteBackend};
use base16::generate::{
    generate_base16_schemes, generate_base16_schemes_from_color,
    generate_base16_schemes_from_image, ColorFormat, Source,
};
use base16::binary64::Binary64;
use base16::color::{rgb_from_argb, Argb, Hct, Hsl, Rgb};
use base16::error::{Report, SchemeError};
use base16::grays::interpolate_grays;
use base16::harmonization::Harmonization;
use base16::measure::hsl as measured;
use base16::palette::{
    generate_base16_scheme_from_palette, gray_ends, MaterialScheme, PaletteColor, Theme,
};
use base16::raster::RgbImage;
use base16::scheme::{assemble, name};
use base16::single::{accent_targets, generate_base16_scheme_from_color, read_color, shade};
use material_colors::utils::math;

const NAMES: [&str; 16] = [
    "base00", "base01", "base02", "base03", "base04", "base05", "base06", "base07", "base08",
    "base09", "base0a", "base0b", "base0c", "base0d", "base0e", "base0f",
];

fn b(x: f64) -> Binary64 {
    Binary64 { bits: x.to_bits() }
}

fn f(x: Binary64) -> f64 {
    f64::from_bits(x.bits)
}

fn solve(target: Hct) -> Argb {
    let hct = material_colors::hct::Hct::from(f(target.hue), f(target.chroma), f(target.tone));
    let c: material_colors::color::Argb = hct.into();
    Argb::new(c.alpha, c.red, c.green, c.blue)
}

fn convert(target: Hsl) -> Rgb {
    let hsl = colorsys::Hsl::new(f(target.hue), f(target.saturation), f(target.lightness), None);
    let rgb: colorsys::Rgb = hsl.into();
    Rgb { red: b(rgb.red()), green: b(rgb.green()), blue: b(rgb.blue()) }
}

fn hsl_of(color: Rgb) -> Hsl {
    let rgb = colorsys::Rgb::new(f(color.red), f(color.green), f(color.blue), None);
    let hsl = colorsys::Hsl::from(&rgb);
    Hsl { hue: b(hsl.hue()), saturation: b(hsl.saturation()), lightness: b(hsl.lightness()) }
}

fn argb_of(color: Rgb) -> Argb {
    read(color).0
}

fn luminance(red: f64, green: f64, blue: f64) -> f64 {
    0.2126 * red + 0.7152 * green + 0.0722 * blue
}

fn read(color: Rgb) -> (Argb, Binary64) {
    let (red, green, blue) = (f(color.red), f(color.green), f(color.blue));
    let argb = Argb::new(255, red as u8, green as u8, blue as u8);
    (argb, b(luminance(red, green, blue)))
}

fn palette_color(red: u8, green: u8, blue: u8) -> PaletteColor {
    let argb = Argb::new(255, red, green, blue);
    let color = rgb_from_argb(argb);
    PaletteColor { color, argb, luminance: read(color).1 }
}

struct Fixed(Vec<Rgb>);

impl PaletteBackend for Fixed {
    fn extract(&self, _image: &RgbImage) -> Vec<Rgb> {
        self.0.clone()
    }
}

fn theme() -> Theme {
    Theme {
        source: Argb::new(255, 66, 133, 244),
        dark: MaterialScheme {
            surface_container_lowest: Argb::new(255, 12, 14, 19),
            primary: Argb::new(255, 173, 198, 255),
        },
        light: MaterialScheme {
            surface_container_lowest: Argb::new(255, 255, 255, 255),
            primary: Argb::new(255, 68, 94, 145),
        },
    }
}

#[test]
fn a_scheme_has_its_sixteen_names_in_order() {
    let grays: Vec<Argb> = (0..8).map(|i| Argb::new(255, i, 0, 0)).collect();
    let accents: Vec<Argb> = (0..8).map(|i| Argb::new(255, 0, i, 0)).collect();
    let map = assemble(&grays, &accents);
    let names: Vec<&str> = map.keys().map(String::as_str).collect();
    assert_eq!(names, NAMES);
    for i in 0..8 {
        assert_eq!(map[NAMES[i]], grays[i]);
        assert_eq!(map[NAMES[i + 8]], accents[i]);
        assert_eq!(name(i), NAMES[i]);
    }
}

#[test]
fn without_a_theme_the_ramp_runs_from_bright_to_dark() {
    let palette = vec![
        palette_color(100, 100, 100),
        palette_color(250, 240, 10),
        palette_color(20, 0, 60),
        palette_color(250, 240, 10),
    ];
    let (base00, base05) = gray_ends(&palette, None);
    assert_eq!(base00, palette[1].color);
    assert_eq!(base05, palette[2].color);
}

#[test]
fn equally_bright_colors_give_the_first_and_the_last() {
    let mut palette = vec![palette_color(1, 0, 0), palette_color(2, 0, 0), palette_color(3, 0, 0)];
    for color in &mut palette {
        color.luminance = b(0.5);
    }
    palette[0].luminance = b(0.25);
    let (base00, base05) = gray_ends(&palette, None);
    assert_eq!(base00, palette[1].color);
    assert_eq!(base05, palette[0].color);
    palette[0].luminance = b(0.5);
    let (base00, base05) = gray_ends(&palette, None);
    assert_eq!(base00, palette[0].color);
    assert_eq!(base05, palette[2].color);
}

#[test]
fn with_a_theme_the_ramp_runs_between_its_colors() {
    let material = theme().dark;
    let (base00, base05) = gray_ends(&vec![], Some(&material));
    assert_eq!(base00, rgb_from_argb(material.surface_container_lowest));
    assert_eq!(base05, rgb_from_argb(material.primary));
    let map = generate_base16_scheme_from_palette(
        &vec![],
        Some(&material),
        None,
        &Harmonization::Light,
        true,
        &solve,
    )
    .unwrap();
    assert_eq!(map["base00"], material.surface_container_lowest);
    assert_eq!(map["base06"], material.primary);
    assert_eq!(map["base08"], Argb::new(0, 0, 0, 0));
}

#[test]
fn a_palette_gives_grays_and_accents() {
    let palette = vec![palette_color(240, 230, 220), palette_color(200, 20, 30)];
    let map = generate_base16_scheme_from_palette(
        &palette,
        None,
        None,
        &Harmonization::Off,
        false,
        &solve,
    )
    .unwrap();
    let ramp = interpolate_grays(&palette[0].color, &palette[1].color);
    let accents = base16::accents::assign_accents(
        &vec![palette[0].argb, palette[1].argb],
        None,
        &Harmonization::Off,
        false,
        &solve,
    )
    .unwrap();
    assert_eq!(map.len(), 16);
    for i in 0..8 {
        assert_eq!(map[NAMES[i]], ramp[i]);
        assert_eq!(map[NAMES[i + 8]], accents[i]);
    }
}

#[test]
fn shades_have_tenths_of_saturation_and_lightness() {
    let hsl = Hsl { hue: b(200.5), saturation: b(61.7), lightness: b(43.1) };
    let dim = shade(&hsl, 3, 15);
    assert_eq!(f(dim.hue), 200.5);
    assert_eq!(f(dim.saturation), 61.7 * 0.3);
    assert_eq!(f(dim.lightness), 43.1 * 1.5);
    let bright = shade(&hsl, 7, 2);
    assert_eq!(f(bright.saturation), 61.7 * 0.7);
    assert_eq!(f(bright.lightness), 43.1 * 0.2);
}

fn drag(source: f64, target: f64, amount: f64) -> f64 {
    let way = math::difference_degrees(source, target);
    let direction = math::rotate_direction(source, target) * amount;
    math::sanitize_degrees_double(way.mul_add(direction, source))
}

fn expected_targets(hue: f64, chroma: f64, tone: f64) -> [(f64, f64, f64); 8] {
    let accent = hue + 60.0;
    let red = drag(hue, 25.0, 0.8);
    let green = drag(hue, 118.0, 0.8);
    let off = 10.0_f64.mul_add(math::rotate_direction(red, hue), red);
    let main = chroma.max(80.0);
    let mute = main / 2.0;
    let low = (chroma / 6.0).min(10.0);
    let main_tone = tone.mul_add(0.3, 50.0);
    let low_tone = tone.mul_add(0.5, 20.0);
    [
        (red, main, main_tone),
        (off, mute, main_tone),
        (hue, mute, main_tone),
        (green, main, main_tone),
        (accent, mute, main_tone),
        (hue, main, main_tone),
        (accent, main, main_tone),
        (hue, low, low_tone),
    ]
}

#[test]
fn accents_of_a_color_have_their_hues_chromas_and_tones() {
    for hue in [0.0, 3.7, 24.9, 25.1, 118.0, 205.5, 277.77, 298.1, 355.2] {
        for chroma in [0.0, 13.3, 59.9, 61.2, 80.1, 113.4] {
            for tone in [0.0, 33.33, 50.1, 100.0] {
                let hct = Hct { hue: b(hue), chroma: b(chroma), tone: b(tone) };
                let targets: Vec<(f64, f64, f64)> = accent_targets(&hct)
                    .iter()
                    .map(|t| (f(t.hue), f(t.chroma), f(t.tone)))
                    .collect();
                assert_eq!(targets, expected_targets(hue, chroma, tone));
            }
        }
    }
}

#[test]
fn a_color_gives_its_shades_and_accents() {
    let color = Argb::new(255, 51, 102, 204);
    let hsl = colorsys::Hsl::from(&colorsys::Rgb::from((51u8, 102u8, 204u8)));
    let reading = read_color(&measured(color), color, &convert, &solve).unwrap();
    let (h, s, l) = (hsl.hue(), hsl.saturation(), hsl.lightness());
    let dim: colorsys::Rgb = colorsys::Hsl::new(h, s * 0.3, l * 1.5, None).into();
    let bright: colorsys::Rgb = colorsys::Hsl::new(h, s * 0.7, l * 0.2, None).into();
    assert_eq!(f(reading.dim.red), dim.red());
    assert_eq!(f(reading.dim.blue), dim.blue());
    assert_eq!(f(reading.bright.green), bright.green());
    let argb = material_colors::color::Argb::new(255, 51, 102, 204);
    let hct = material_colors::hct::Hct::new(argb);
    let targets = expected_targets(hct.get_hue(), hct.get_chroma(), hct.get_tone());
    let accents: Vec<Argb> =
        targets.iter().map(|t| solve(Hct { hue: b(t.0), chroma: b(t.1), tone: b(t.2) })).collect();
    assert_eq!(reading.accents, accents);
}

#[test]
fn dark_and_light_schemes_of_a_color_share_their_accents() {
    let argb = Argb::new(255, 180, 60, 90);
    let color = ColorFormat { string: "#b43c5a".to_string(), reading: Ok(argb) };
    let schemes = generate_base16_schemes_from_color(&color, &convert, &solve).unwrap();
    let reading = read_color(&measured(argb), argb, &convert, &solve).unwrap();
    let dark = interpolate_grays(&reading.dim, &reading.bright);
    let light = interpolate_grays(&reading.bright, &reading.dim);
    for i in 0..8 {
        assert_eq!(schemes.dark[NAMES[i + 8]], schemes.light[NAMES[i + 8]]);
        assert_eq!(schemes.dark[NAMES[i]], dark[i]);
        assert_eq!(schemes.light[NAMES[i]], light[i]);
    }
    let color = rgb_from_argb(argb);
    let single =
        generate_base16_scheme_from_color(&color, false, &hsl_of, &argb_of, &convert, &solve);
    assert!(single.unwrap().iter().eq(schemes.light.iter()));
    for i in 0..=6 {
        assert!(schemes.dark[i].red.abs_diff(schemes.light[6 - i].red) <= 1);
        assert!(schemes.dark[i].green.abs_diff(schemes.light[6 - i].green) <= 1);
        assert!(schemes.dark[i].blue.abs_diff(schemes.light[6 - i].blue) <= 1);
    }
}

#[test]
fn fractions_of_channels_count_in_the_ramp() {
    let color = Rgb { red: b(51.5), green: b(102.25), blue: b(203.75) };
    let map = generate_base16_scheme_from_color(&color, true, &hsl_of, &argb_of, &convert, &solve)
        .unwrap();
    let hsl = hsl_of(color);
    let dim = convert(shade(&hsl, 3, 15));
    let bright = convert(shade(&hsl, 7, 2));
    let ramp = interpolate_grays(&dim, &bright);
    for i in 0..8 {
        assert_eq!(map[NAMES[i]], ramp[i]);
    }
    let accents = read_color(&hsl, argb_of(color), &convert, &solve).unwrap().accents;
    for i in 0..8 {
        assert_eq!(map[NAMES[i + 8]], accents[i]);
    }
}

#[test]
fn every_color_of_a_grid_has_schemes() {
    for r in (0..=255).step_by(51) {
        for g in (0..=255).step_by(51) {
            for bl in (0..=255).step_by(51) {
                let argb = Argb::new(255, r as u8, g as u8, bl as u8);
                let hsl = measured(argb);
                assert!(read_color(&hsl, argb, &convert, &solve).is_ok(), "{argb:?}");
            }
        }
    }
}

#[test]
fn shades_out_of_range_are_an_error() {
    let color = Argb::new(255, 9, 8, 7);
    let wild = |_: Hsl| Rgb { red: b(1e9), green: b(0.0), blue: b(0.0) };
    let rgb = rgb_from_argb(color);
    let r = generate_base16_scheme_from_color(&rgb, true, &hsl_of, &argb_of, &wild, &solve);
    assert!(matches!(r, Err(SchemeError::Range { color: c }) if c == color));
}

#[test]
fn a_color_that_is_none_is_an_error() {
    let color =
        ColorFormat { string: "#nope".to_string(), reading: Err("bad digit".to_string()) };
    let r = generate_base16_schemes_from_color(&color, &convert, &solve);
    assert!(matches!(r, Err(SchemeError::Color { reason }) if reason == "bad digit"));
    let r = generate_base16_schemes(
        &Source::Color(color),
        Backend::Celebi,
        Fixed(vec![]),
        None,
        &Harmonization::Light,
        &read,
        &convert,
        &solve,
    );
    let Err(Report::Scheme { message, cause }) = r else {
        panic!("an error was expected");
    };
    assert_eq!(message, "Could not generate base16 scheme from color: #nope");
    assert!(matches!(cause, SchemeError::Color { reason } if reason == "bad digit"));
}

fn image() -> RgbImage {
    let mut data = Vec::new();
    for i in 0..100u32 {
        let pixel: [u8; 3] = match i % 4 {
            0 => [230, 40, 50],
            1 => [20, 160, 60],
            2 => [40, 70, 210],
            _ => [245, 240, 230],
        };
        data.extend_from_slice(&pixel);
    }
    RgbImage { width: 10, height: 10, data }
}

fn png(image: &RgbImage) -> Vec<u8> {
    let buffer =
        image::RgbImage::from_raw(image.width, image.height, image.data.clone()).unwrap();
    let mut bytes = std::io::Cursor::new(Vec::new());
    buffer.write_to(&mut bytes, image::ImageFormat::Png).unwrap();
    bytes.into_inner()
}

#[test]
fn an_image_gives_the_schemes_of_its_palette() {
    let (theme, level) = (theme(), Harmonization::Moderate);
    let palette = base16::celebi::CelebiBackend::default().extract(&image());
    let colors: Vec<PaletteColor> = palette
        .iter()
        .map(|&color| PaletteColor { color, argb: read(color).0, luminance: read(color).1 })
        .collect();
    let expected = |theme: Option<&Theme>, dark: bool| {
        let swatch = theme.map(|t| if dark { &t.dark } else { &t.light });
        let source = theme.map(|t| t.source);
        generate_base16_scheme_from_palette(&colors, swatch, source, &level, dark, &solve).unwrap()
    };
    for theme in [None, Some(&theme)] {
        let schemes = generate_base16_schemes_from_image(
            &image(),
            Backend::Celebi,
            Fixed(vec![]),
            theme,
            &level,
            &read,
            &solve,
        )
        .unwrap();
        assert!(schemes.dark.iter().eq(expected(theme, true).iter()));
        assert!(schemes.light.iter().eq(expected(theme, false).iter()));
    }
}

#[test]
fn sources_are_decoded_and_extracted() {
    let bytes = png(&image());
    let direct = generate_base16_schemes_from_image(
        &image(),
        Backend::Celebi,
        Fixed(vec![]),
        None,
        &Harmonization::Light,
        &read,
        &solve,
    )
    .unwrap();
    let file = Source::Image { path: "a.png".to_string(), bytes: bytes.clone() };
    let web = Source::WebImage { url: "https://example.org/a".to_string(), bytes };
    for source in [file, web] {
        let schemes = generate_base16_schemes(
            &source,
            Backend::Celebi,
            Fixed(vec![]),
            None,
            &Harmonization::Light,
            &read,
            &convert,
            &solve,
        )
        .unwrap();
        assert!(schemes.dark.iter().eq(direct.dark.iter()));
        assert!(schemes.light.iter().eq(direct.light.iter()));
    }
}

#[test]
fn the_clustering_extractor_is_used_where_it_is_asked_for() {
    let red = rgb_from_argb(Argb::new(255, 200, 10, 10));
    let schemes = generate_base16_schemes_from_image(
        &image(),
        Backend::Wal,
        Fixed(vec![red]),
        None,
        &Harmonization::Off,
        &read,
        &solve,
    )
    .unwrap();
    assert_eq!(schemes.dark["base00"], Argb::new(255, 200, 10, 10));
    assert_eq!(schemes.dark["base07"], Argb::new(255, 200, 10, 10));
}

#[test]
fn an_empty_palette_needs_a_theme() {
    let level = Harmonization::Light;
    let r = generate_base16_schemes_from_image(
        &image(),
        Backend::Wal,
        Fixed(vec![]),
        None,
        &level,
        &read,
        &solve,
    );
    assert!(matches!(r, Err(SchemeError::Palette)));
    let r = generate_base16_schemes_from_image(
        &image(),
        Backend::Wal,
        Fixed(vec![]),
        Some(&theme()),
        &level,
        &read,
        &solve,
    );
    assert_eq!(r.unwrap().light["base06"], theme().light.primary);
}

#[test]
fn a_luminance_that_is_no_number_gives_no_ends() {
    let unread = |color: Rgb| (read(color).0, b(f64::NAN));
    let r = generate_base16_schemes_from_image(
        &image(),
        Backend::Celebi,
        Fixed(vec![]),
        None,
        &Harmonization::Light,
        &unread,
        &solve,
    );
    assert!(matches!(r, Err(SchemeError::Palette)));
}

#[test]
fn bytes_that_are_no_image_are_reported() {
    let source = Source::Image { path: "x.png".to_string(), bytes: vec![1, 2, 3] };
    let r = generate_base16_schemes(
        &source,
        Backend::Celebi,
        Fixed(vec![]),
        None,
        &Harmonization::Light,
        &read,
        &convert,
        &solve,
    );
    assert!(matches!(r, Err(Report::Decode(_))));
}
