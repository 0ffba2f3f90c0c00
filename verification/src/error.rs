//! What can go wrong when a scheme is made.
use vstd::prelude::*;

use crate::color::Argb;

verus! {

/// Why no scheme was made.
#[derive(Debug)]
pub enum SchemeError {
    /// The written color is none.
    Color {
        /// What is wrong with it.
        reason: String,
    },
    /// A conversion of this color gave numbers that no color has.
    Range {
        /// The color that was converted.
        color: Argb,
    },
    /// The palette has no brightest and darkest color.
    Palette,
    /// The image is too wide to be dealt with in memory.
    Size {
        /// Its width.
        width: u32,
    },
}

/// What is reported when no schemes were made.
#[derive(Debug)]
pub enum Report {
    /// The image could not be decoded.
    Decode(image::ImageError),
    /// No scheme was made.
    Scheme {
        /// What was tried, and on what.
        message: String,
        /// Why it went wrong.
        cause: SchemeError,
    },
}

/// `image::ImageError`, of which nothing is seen.
#[verifier::external_type_specification]
#[verifier::external_body]
pub struct ExImageError(image::ImageError);

} // verus!
