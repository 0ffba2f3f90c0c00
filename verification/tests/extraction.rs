//! Palettes of images.
use base16::backend::{Backend, Extractor, PaletteBackend};
use base16::binary64::Binary64;
use base16::celebi::{rank_palette, CelebiBackend};
use base16::color::{rgb_from_argb, Argb, Rgb};
use base16::raster::{decode, load, opaque_pixels, resize_image, RgbImage};
use material_colors::quantize::{Quantizer, QuantizerCelebi};

fn whole(red: u8, green: u8, blue: u8) -> Rgb {
    rgb_from_argb(Argb::new(255, red, green, blue))
}

fn striped(width: u32, height: u32) -> RgbImage {
    let mut data = Vec::new();
    for y in 0..height {
        for x in 0..width {
            let pixel: [u8; 3] = match (x + 3 * y) % 7 {
                0 => [250, 10, 20],
                1 | 2 => [10, 200, 30],
                _ => [30, 40, 220],
            };
            data.extend_from_slice(&pixel);
        }
    }
    RgbImage { width, height, data }
}

struct Fixed(Vec<Rgb>);

impl PaletteBackend for Fixed {
    fn extract(&self, _image: &RgbImage) -> Vec<Rgb> {
        self.0.clone()
    }
}

#[test]
fn preset_is_sixteen_colors_of_a_width_of_three_hundred() {
    let backend = CelebiBackend::default();
    assert_eq!((backend.max_colors, backend.resize_width), (16, 300));
    assert!(backend.takes(&striped(7, 7)));
}

#[test]
fn extreme_settings_are_not_taken() {
    let image = striped(7, 7);
    assert!(!CelebiBackend { max_colors: 0, resize_width: 10 }.takes(&image));
    assert!(!CelebiBackend { max_colors: 16, resize_width: 65536 }.takes(&image));
    assert!(!CelebiBackend { max_colors: 16, resize_width: u32::MAX }.takes(&image));
    assert!(CelebiBackend { max_colors: 128, resize_width: 1200 }.takes(&image));
    assert!(CelebiBackend { max_colors: 1024, resize_width: 65535 }.takes(&image));
    assert!(!CelebiBackend { max_colors: 4096, resize_width: 10 }.takes(&image));
    assert!(CelebiBackend { max_colors: 0, resize_width: 0 }.takes(&image));
}

#[test]
fn resizing_is_that_of_the_image_library() {
    let image = striped(13, 9);
    let resized = resize_image(&image, 5);
    let buffer = image::RgbImage::from_raw(13, 9, image.data.clone()).unwrap();
    let filter = image::imageops::FilterType::Triangle;
    let expected = image::imageops::resize(&buffer, 5, 5, filter).into_raw();
    assert_eq!((resized.width, resized.height), (5, 5));
    assert_eq!(resized.data, expected);
    assert_ne!(resized.data, image.data);
}

#[test]
fn an_image_of_the_right_size_is_left_as_it_is() {
    let image = striped(6, 6);
    assert_eq!(resize_image(&image, 6).data, image.data);
}

#[test]
fn an_image_without_pixels_becomes_blank() {
    let image = RgbImage { width: 0, height: 4, data: vec![] };
    assert_eq!(resize_image(&image, 3).data, vec![0; 27]);
}

#[test]
fn pixels_are_opaque_and_in_order() {
    let image = RgbImage { width: 2, height: 1, data: vec![1, 2, 3, 4, 5, 6] };
    let expected = vec![Argb::new(255, 1, 2, 3), Argb::new(255, 4, 5, 6)];
    assert_eq!(opaque_pixels(&image), expected);
}

#[test]
fn frequent_colors_come_first() {
    let counts = vec![
        (Argb::new(255, 1, 0, 0), 5),
        (Argb::new(255, 2, 0, 0), 9),
        (Argb::new(255, 3, 0, 0), 5),
        (Argb::new(255, 4, 0, 0), u32::MAX),
    ];
    let expected = vec![whole(4, 0, 0), whole(2, 0, 0), whole(1, 0, 0), whole(3, 0, 0)];
    assert_eq!(rank_palette(&counts), expected);
}

#[test]
fn palette_is_that_of_the_quantizer_by_frequency() {
    let image = striped(20, 20);
    let backend = CelebiBackend { max_colors: 8, resize_width: 20 };
    let pixels: Vec<material_colors::color::Argb> = image
        .data
        .chunks(3)
        .map(|p| material_colors::color::Argb::new(255, p[0], p[1], p[2]))
        .collect();
    let result = QuantizerCelebi::quantize(&pixels, 8);
    let mut counts: Vec<_> = result.color_to_count.into_iter().collect();
    counts.sort_by(|a, b| b.1.cmp(&a.1));
    let expected: Vec<Rgb> = counts.iter().map(|(c, _)| whole(c.red, c.green, c.blue)).collect();
    let palette = backend.extract(&image);
    assert_eq!(palette, expected);
    assert_eq!(palette[0], whole(30, 40, 220));
    assert!(palette.len() <= 8 && palette.len() >= 3);
}

#[test]
fn many_colors_are_extracted() {
    let mut data = Vec::new();
    for i in 0..40u32 * 40 {
        data.extend_from_slice(&[(i * 7) as u8, (i * 13 / 3) as u8, (i * 29 / 7) as u8]);
    }
    let image = RgbImage { width: 40, height: 40, data };
    for (max_colors, resize_width) in [(65, 60), (128, 60), (300, 40)] {
        let backend = CelebiBackend { max_colors, resize_width };
        assert!(backend.takes(&image));
        let palette = backend.extract(&image);
        assert!(palette.len() > 32 && palette.len() <= max_colors);
        for (i, a) in palette.iter().enumerate() {
            assert!(a.is_valid());
            assert!(palette[i + 1..].iter().all(|b| a != b));
        }
    }
}

#[test]
fn many_colors_are_asked_of_many_pixels() {
    let image = RgbImage { width: 2, height: 1, data: vec![0, 0, 0, 255, 255, 255] };
    let backend = CelebiBackend { max_colors: 128, resize_width: 1200 };
    let palette = backend.extract(&image);
    assert!(palette.len() > 16 && palette.len() <= 128);
}

#[test]
fn more_colors_than_cells_are_drawn_from_the_pixels() {
    // sixteen colors in one cell of the histogram
    let mut data = Vec::new();
    for i in 0..64u8 {
        data.extend_from_slice(&[100 + i % 4, 100 + i / 4 % 4, 100]);
    }
    let image = RgbImage { width: 8, height: 8, data };
    let palette = CelebiBackend { max_colors: 1024, resize_width: 8 }.extract(&image);
    assert!(!palette.is_empty() && palette.len() <= 16);
}

#[test]
fn resizing_again_changes_nothing() {
    let resized = resize_image(&striped(13, 9), 5);
    assert_eq!(resize_image(&resized, 5).data, resized.data);
}

#[test]
fn palette_has_no_color_twice() {
    let palette = CelebiBackend::default().extract(&striped(40, 25));
    assert!(!palette.is_empty() && palette.len() <= 16);
    for (i, a) in palette.iter().enumerate() {
        assert!(a.is_valid());
        assert!(palette[i + 1..].iter().all(|b| a != b));
    }
}

#[test]
fn a_width_of_zero_gives_no_palette() {
    let backend = CelebiBackend { max_colors: 16, resize_width: 0 };
    assert!(backend.extract(&striped(3, 3)).is_empty());
}

#[test]
fn kinds_give_their_extractors() {
    let image = striped(5, 5);
    let wal = Fixed(vec![whole(1, 2, 3)]);
    let made = Backend::Wal.create(wal);
    assert!(matches!(made, Extractor::Wal(_)));
    assert_eq!(made.extract(&image), vec![whole(1, 2, 3)]);
    let made = Backend::Celebi.create(Fixed(vec![]));
    assert!(matches!(&made, Extractor::Celebi(c) if c.max_colors == 16));
    assert_eq!(made.extract(&image), CelebiBackend::default().extract(&image));
}

#[test]
fn channels_know_their_range() {
    let b = |x: f64| Binary64 { bits: x.to_bits() };
    assert!(Rgb { red: b(0.0), green: b(255.0), blue: b(12.5) }.is_valid());
    assert!(!Rgb { red: b(-2.0), green: b(0.0), blue: b(0.0) }.is_valid());
    assert!(!Rgb { red: b(0.0), green: b(257.0), blue: b(0.0) }.is_valid());
    assert!(!Rgb { red: b(0.0), green: b(0.0), blue: b(f64::NAN) }.is_valid());
}

fn png(image: &RgbImage) -> Vec<u8> {
    let buffer =
        image::RgbImage::from_raw(image.width, image.height, image.data.clone()).unwrap();
    let mut bytes = std::io::Cursor::new(Vec::new());
    buffer.write_to(&mut bytes, image::ImageFormat::Png).unwrap();
    bytes.into_inner()
}

#[test]
fn decoding_gives_back_the_pixels() {
    let image = striped(6, 4);
    let bytes = png(&image);
    for decoded in [load(&bytes), decode("picture.png", &bytes), decode("picture", &bytes)] {
        let decoded = decoded.unwrap();
        assert_eq!((decoded.width, decoded.height), (6, 4));
        assert_eq!(decoded.data, image.data);
    }
}

#[test]
fn what_is_no_image_is_not_decoded() {
    assert!(load(&b"no image".to_vec()).is_err());
    assert!(decode("picture.png", &b"no image".to_vec()).is_err());
}
