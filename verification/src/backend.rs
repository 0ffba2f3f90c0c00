//! Extraction of palettes from images.
use vstd::prelude::*;

use crate::celebi::CelebiBackend;
use crate::color::Rgb;
use crate::raster::RgbImage;

verus! {

/// What extracts a palette from an image.
pub trait PaletteBackend {
    /// The images that a palette is extracted from: all of them, if nothing else is said.
    open spec fn accepts(&self, image: RgbImage) -> bool {
        true
    }

    /// The palettes that may be extracted from an image: any, if nothing else is said.
    open spec fn may_extract(&self, image: RgbImage, palette: Seq<Rgb>) -> bool {
        true
    }

    /// The palette of an image.
    fn extract(&self, image: &RgbImage) -> (palette: Vec<Rgb>)
        requires
            self.accepts(*image),
        ensures
            self.may_extract(*image, palette@),
    ;
}

/// The kinds of extraction.
#[derive(Debug, Clone, Copy, PartialEq, Eq, Structural)]
pub enum Backend {
    /// K-means clustering in RGB space.
    Wal,
    /// The quantizer of Material You, which refines clusters.
    Celebi,
}

/// An extractor of one kind or the other.
pub enum Extractor<W: PaletteBackend> {
    Wal(W),
    Celebi(CelebiBackend),
}

impl<W: PaletteBackend> PaletteBackend for Extractor<W> {
    open spec fn accepts(&self, image: RgbImage) -> bool {
        match self {
            Extractor::Wal(wal) => wal.accepts(image),
            Extractor::Celebi(celebi) => celebi.accepts(image),
        }
    }

    open spec fn may_extract(&self, image: RgbImage, palette: Seq<Rgb>) -> bool {
        match self {
            Extractor::Wal(wal) => wal.may_extract(image, palette),
            Extractor::Celebi(celebi) => celebi.may_extract(image, palette),
        }
    }

    fn extract(&self, image: &RgbImage) -> (palette: Vec<Rgb>) {
        match self {
            Extractor::Wal(wal) => wal.extract(image),
            Extractor::Celebi(celebi) => celebi.extract(image),
        }
    }
}

impl Backend {
    /// The extractor of this kind; `wal` is the one that clusters.
    pub fn create<W: PaletteBackend>(&self, wal: W) -> (r: Extractor<W>)
        ensures
            r == (match self {
                Backend::Wal => Extractor::Wal(wal),
                Backend::Celebi => Extractor::Celebi(CelebiBackend::preset()),
            }),
    {
        match self {
            Backend::Wal => Extractor::Wal(wal),
            Backend::Celebi => Extractor::Celebi(CelebiBackend::default()),
        }
    }
}

} // verus!
