//! Colors measured by hue, chroma and tone, and by hue, saturation and lightness.
use vstd::prelude::*;

use crate::angle;
use crate::binary64::Binary64;
use crate::color::{Argb, Hct, Hsl};

verus! {

/// The bit patterns of hue, chroma and tone that may be measured of an opaque color.
pub uninterp spec fn hct_readings(red: u8, green: u8, blue: u8) -> Set<(u64, u64, u64)>;

/// Calls `material_colors::hct::Hct::new` and its three getters.
///
/// Claimed are that the bit patterns are a measurement of this color, and that the hue is an angle
/// from 0 to less than 360 degrees. The measurement goes through powers and an arc tangent whose
/// last digits are not the same everywhere, so it is not claimed that a color has one measurement
/// only; no bounds of chroma and tone are claimed.
#[verifier::external_body]
fn hct_bits(red: u8, green: u8, blue: u8) -> (r: (u64, u64, u64))
    ensures
        hct_readings(red, green, blue).contains(r),
        angle::is_hue((Binary64 { bits: r.0 })),
        (Binary64 { bits: r.0 }).value() < angle::degrees(360),
{
    let color = material_colors::color::Argb::new(255, red, green, blue);
    let hct = material_colors::hct::Hct::new(color);
    (hct.get_hue().to_bits(), hct.get_chroma().to_bits(), hct.get_tone().to_bits())
}

/// `hct` may be measured of `color`.
pub open spec fn may_measure(color: Argb, hct: Hct) -> bool {
    hct_readings(color.red, color.green, color.blue).contains(
        (hct.hue.bits, hct.chroma.bits, hct.tone.bits),
    )
}

/// Hue, chroma and tone of a color.
pub fn measure(color: Argb) -> (hct: Hct)
    ensures
        may_measure(color, hct),
        angle::is_hue(hct.hue),
        hct.hue.value() < angle::degrees(360),
{
    let (hue, chroma, tone): (u64, u64, u64) = hct_bits(color.red, color.green, color.blue);
    Hct {
        hue: Binary64 { bits: hue },
        chroma: Binary64 { bits: chroma },
        tone: Binary64 { bits: tone },
    }
}

/// The texts that may stand for hue, chroma and tone of an opaque color.
pub uninterp spec fn hct_labels(red: u8, green: u8, blue: u8) -> Set<Seq<char>>;

/// Calls `material_colors::hct::Hct::new` and writes the measured color with its `Display`.
///
/// Claimed is that the text is one that stands for the measurement of this color: it holds hue,
/// chroma and tone as whole numbers, so close colors can have one text. As with the measurement
/// itself it is not claimed that a color has one text only.
#[verifier::external_body]
fn hct_text(red: u8, green: u8, blue: u8) -> (r: String)
    ensures
        hct_labels(red, green, blue).contains(r@),
{
    let color = material_colors::color::Argb::new(255, red, green, blue);
    material_colors::hct::Hct::new(color).to_string()
}

/// `label` may stand for hue, chroma and tone of `color`.
pub open spec fn may_label(color: Argb, label: Seq<char>) -> bool {
    hct_labels(color.red, color.green, color.blue).contains(label)
}

/// The text that stands for hue, chroma and tone of a color.
pub fn label(color: Argb) -> (r: String)
    ensures
        may_label(color, r@),
{
    hct_text(color.red, color.green, color.blue)
}

/// The bit patterns of hue, saturation and lightness of a color.
pub uninterp spec fn hsl_bits_of(red: u8, green: u8, blue: u8) -> (u64, u64, u64);

/// Calls `colorsys::Rgb::from` and `colorsys::Hsl::from`, and the getters of the latter.
///
/// Claimed is that the bit patterns depend on the three channels alone: the conversion adds,
/// subtracts, multiplies, divides and compares double precision numbers, and does nothing else.
#[verifier::external_body]
fn hsl_bits(red: u8, green: u8, blue: u8) -> (r: (u64, u64, u64))
    ensures
        r == hsl_bits_of(red, green, blue),
{
    let hsl = colorsys::Hsl::from(&colorsys::Rgb::from((red, green, blue)));
    (hsl.hue().to_bits(), hsl.saturation().to_bits(), hsl.lightness().to_bits())
}

/// Hue, saturation and lightness of a color.
pub open spec fn hsl_of(color: Argb) -> Hsl {
    let bits = hsl_bits_of(color.red, color.green, color.blue);
    Hsl {
        hue: Binary64 { bits: bits.0 },
        saturation: Binary64 { bits: bits.1 },
        lightness: Binary64 { bits: bits.2 },
    }
}

/// Hue, saturation and lightness of a color.
pub fn hsl(color: Argb) -> (r: Hsl)
    ensures
        r == hsl_of(color),
{
    let (hue, saturation, lightness): (u64, u64, u64) = hsl_bits(
        color.red,
        color.green,
        color.blue,
    );
    Hsl {
        hue: Binary64 { bits: hue },
        saturation: Binary64 { bits: saturation },
        lightness: Binary64 { bits: lightness },
    }
}

} // verus!
