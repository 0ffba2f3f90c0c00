//! Base16 color schemes.
//!
//! A scheme has sixteen colors: a ramp of eight grays and eight accents. `generate` makes the dark
//! and the light scheme of an image or of a color; `palette` and `single` make one of them.
//!
//! - `grays` is the ramp between two colors, `accents` the fitting of colors to the slots of the
//!   accents, `assignment` the dealing out, and `harmonization` the turning of hues; `invariance`
//!   says what makes no difference to the accents.
//! - `backend` and `celebi` extract palettes, `raster` holds and resizes images, and `scheme` puts
//!   the named colors together.
//! - `composition`, `selection`, `dealing` and `extraction` say what schemes, accents and palettes
//!   hold in terms of what they are made from; `circle`, `exactness` and `nearness` how far their
//!   numbers are from those of exact arithmetic, and `precision` and `encoding` how they are
//!   rounded and written in bits.
//! - `measure` reads colors, `angle` computes with hues, and `binary64` with double precision
//!   numbers, on the definitions of `rounding`.
pub mod accents;
pub mod angle;
pub mod assignment;
pub mod backend;
pub mod binary64;
pub mod celebi;
pub mod circle;
pub mod color;
pub mod composition;
pub mod dealing;
pub mod encoding;
pub mod error;
pub mod exactness;
pub mod extraction;
pub mod generate;
pub mod grays;
pub mod harmonization;
pub mod invariance;
pub mod measure;
pub mod nearness;
pub mod order;
pub mod palette;
pub mod precision;
pub mod raster;
pub mod rounding;
pub mod scheme;
pub mod selection;
pub mod single;
