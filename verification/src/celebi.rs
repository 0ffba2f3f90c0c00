//! Palette extraction by the quantizer of Material You.
use material_colors::quantize::{Quantizer, QuantizerCelebi};
use vstd::prelude::*;

use crate::backend::PaletteBackend;
use crate::color;
use crate::color::{Argb, Rgb};
use crate::raster;
use crate::raster::RgbImage;
use crate::order;

verus! {

/// Palette backend that uses Material You's own quantizer (Wu, then weighted means) to extract
/// colors, producing results that are stylistically consistent with the Material You pipeline.
#[derive(Debug)]
pub struct CelebiBackend {
    pub max_colors: usize,
    pub resize_width: u32,
}

impl CelebiBackend {
    /// Up to 16 colors, of images brought to a width of 300.
    pub open spec fn preset() -> CelebiBackend {
        CelebiBackend { max_colors: 16, resize_width: 300 }
    }
}

impl Default for CelebiBackend {
    fn default() -> (r: CelebiBackend)
        ensures
            r == CelebiBackend::preset(),
    {
        CelebiBackend { max_colors: 16, resize_width: 300 }
    }
}

impl CelebiBackend {
    /// Whether a palette is extracted from an image.
    pub fn takes(&self, image: &RgbImage) -> (r: bool)
        requires
            image.well_formed(),
        ensures
            r == self.accepts(*image),
    {
        let limit: u128 = isize::MAX as u128;
        let (width, target): (u128, u128) = (image.width as u128, self.resize_width as u128);
        if target > 0x10_0000 {
            return false;
        }
        assert(width * target <= 0xffff_ffff * 0x10_0000) by (nonlinear_arith)
            requires
                0 <= width <= 0xffff_ffff,
                0 <= target <= 0x10_0000,
        ;
        assert(target * target <= 0x10_0000 * 0x10_0000) by (nonlinear_arith)
            requires
                0 <= target <= 0x10_0000,
        ;
        assert(target > 0 ==> target * target >= 1) by (nonlinear_arith);
        let pixels: u128 = target * target;
        let fits: bool = 16 * (width * target) <= limit && 3 * pixels <= limit;
        let few: bool = 1 <= self.max_colors && self.max_colors <= 1024 && pixels <= 0xffff_ffff;
        fits && (target == 0 || few)
    }
}

/// The colors with their counts that may come of pixels, at most `max_colors` of them.
pub uninterp spec fn quantizations(pixels: Seq<Argb>, max_colors: usize) -> Set<Seq<(Argb, u32)>>;

/// The quantizer takes this many pixels and colors.
pub open spec fn quantizable(pixels: nat, max_colors: usize) -> bool {
    &&& 1 <= pixels <= u32::MAX
    &&& 1 <= max_colors <= 1024
}

/// At least one color and at most `max_colors`, each of them opaque and listed once, with a count
/// of at least one and at most that of all pixels.
pub open spec fn is_tally(pixels: nat, max_colors: usize, counts: Seq<(Argb, u32)>) -> bool {
    &&& 1 <= counts.len() <= max_colors
    &&& forall|i: int|
        0 <= i < counts.len() ==> (#[trigger] counts[i]).0.alpha == 255 && 1 <= counts[i].1
            <= pixels
    &&& forall|i: int, j: int|
        0 <= i < j < counts.len() ==> (#[trigger] counts[i]).0 != (#[trigger] counts[j]).0
}

/// `counts` may come of the pixels.
pub open spec fn is_quantization(
    pixels: Seq<Argb>,
    max_colors: usize,
    counts: Seq<(Argb, u32)>,
) -> bool {
    quantizations(pixels, max_colors).contains(counts) && is_tally(pixels.len(), max_colors, counts)
}

/// Calls `material_colors::quantize::QuantizerCelebi::quantize` and lists its counts.
///
/// Claimed is that the list is one that may come of these opaque pixels, and is a tally of them.
/// The quantizer computes roots and powers whose last digits are not the same everywhere, so it is
/// not claimed that pixels have one quantization only, nor which colors come out.
///
/// It wants at least one color, and it counts pixels in 32 bits. Where the pixels lie in fewer
/// cells of its histogram than colors are asked for, it draws further ones with a generator of
/// fixed seed, and adds a drawn number of 31 bits and an index in a signed sum of 32 bits. A cell
/// has 512 opaque colors, so with up to 1024 colors asked for an index is below 523776, and the
/// numbers drawn first are too small for that sum to overflow, however many opaque pixels there
/// are.
#[verifier::external_body]
fn quantize(pixels: &Vec<Argb>, max_colors: usize) -> (counts: Vec<(Argb, u32)>)
    requires
        quantizable(pixels@.len(), max_colors),
        forall|i: int| 0 <= i < pixels@.len() ==> (#[trigger] pixels@[i]).alpha == 255,
    ensures
        quantizations(pixels@, max_colors).contains(counts@),
        is_tally(pixels@.len(), max_colors, counts@),
{
    let colors: Vec<material_colors::color::Argb> = pixels.iter().map(
        |p| material_colors::color::Argb::new(p.alpha, p.red, p.green, p.blue),
    ).collect();
    let result = QuantizerCelebi::quantize(&colors, max_colors);
    result.color_to_count.into_iter().map(
        |(c, n)| (Argb { alpha: c.alpha, red: c.red, green: c.green, blue: c.blue }, n),
    ).collect()
}

/// The keys by which colors are ranked: the higher the count, the lower the key.
pub open spec fn rank_keys_of(counts: Seq<(Argb, u32)>) -> Seq<i64> {
    Seq::new(counts.len(), |i: int| (-(counts[i].1 as int)) as i64)
}

/// The colors by descending count, equally frequent ones in their order.
pub open spec fn ranked_of(counts: Seq<(Argb, u32)>) -> Seq<Argb> {
    Seq::new(
        counts.len(),
        |k: int| counts[order::stable_order_of(rank_keys_of(counts))[k] as int].0,
    )
}

/// The channels are those of the colors, one by one.
pub open spec fn are_channels_of(palette: Seq<Rgb>, colors: Seq<Argb>) -> bool {
    &&& palette.len() == colors.len()
    &&& forall|i: int| 0 <= i < palette.len() ==> (#[trigger] palette[i]).is_of(colors[i])
}

/// The palette of counted colors, the most frequent first for stable ordering.
pub fn rank_palette(counts: &Vec<(Argb, u32)>) -> (palette: Vec<Rgb>)
    ensures
        are_channels_of(palette@, ranked_of(counts@)),
{
    let mut keys: Vec<i64> = Vec::new();
    let mut i: usize = 0;
    while i < counts.len()
        invariant
            i <= counts.len(),
            keys@.len() == i,
            forall|j: int| 0 <= j < i ==> #[trigger] keys@[j] == rank_keys_of(counts@)[j],
        decreases counts.len() - i,
    {
        keys.push(-(counts[i].1 as i64));
        i = i + 1;
    }
    assert(keys@ =~= rank_keys_of(counts@));
    let places: Vec<usize> = order::stable_order(&keys);
    let mut palette: Vec<Rgb> = Vec::new();
    let mut k: usize = 0;
    while k < counts.len()
        invariant
            k <= counts.len(),
            places@ == order::stable_order_of(rank_keys_of(counts@)),
            order::is_stable_order(rank_keys_of(counts@), places@),
            palette@.len() == k,
            forall|j: int|
                0 <= j < k ==> (#[trigger] palette@[j]).is_of(ranked_of(counts@)[j]),
        decreases counts.len() - k,
    {
        let (argb, _): (Argb, u32) = counts[places[k]];
        palette.push(color::rgb_from_argb(argb));
        k = k + 1;
    }
    palette
}

impl PaletteBackend for CelebiBackend {
    open spec fn accepts(&self, image: RgbImage) -> bool {
        &&& raster::resizable(image, self.resize_width)
        &&& self.resize_width > 0 ==> quantizable(
            (self.resize_width * self.resize_width) as nat,
            self.max_colors,
        )
    }

    open spec fn may_extract(&self, image: RgbImage, palette: Seq<Rgb>) -> bool {
        if self.resize_width == 0 {
            palette.len() == 0
        } else {
            let pixels = raster::pixels_of(
                raster::resized_of(image.width, image.height, image.data@, self.resize_width),
            );
            exists|counts: Seq<(Argb, u32)>| #[trigger]
                is_quantization(pixels, self.max_colors, counts) && are_channels_of(
                    palette,
                    ranked_of(counts),
                )
        }
    }

    fn extract(&self, image: &RgbImage) -> (palette: Vec<Rgb>) {
        let resized: RgbImage = raster::resize_image(image, self.resize_width);
        let pixels: Vec<Argb> = raster::opaque_pixels(&resized);
        let ghost w = self.resize_width as int;
        proof {
            assert(3 * (w * w) / 3 == w * w);
            assert(w > 0 ==> w * w >= 1) by (nonlinear_arith);
            assert(w == 0 ==> w * w == 0) by (nonlinear_arith);
        }
        if pixels.is_empty() {
            return Vec::new();
        }
        let counts: Vec<(Argb, u32)> = quantize(&pixels, self.max_colors);
        assert(is_quantization(pixels@, self.max_colors, counts@));
        rank_palette(&counts)
    }
}

/// More frequent colors come first, and equally frequent ones in the order in which they were
/// counted.
pub proof fn frequent_colors_come_first(counts: Seq<(Argb, u32)>, a: int, b: int)
    requires
        0 <= a < b < counts.len() <= usize::MAX,
    ensures
        ({
            let places = order::stable_order_of(rank_keys_of(counts));
            let (i, j) = (places[a] as int, places[b] as int);
            &&& 0 <= i < counts.len() && 0 <= j < counts.len()
            &&& ranked_of(counts)[a] == counts[i].0 && ranked_of(counts)[b] == counts[j].0
            &&& counts[i].1 > counts[j].1 || (counts[i].1 == counts[j].1 && i < j)
        }),
{
    let keys = rank_keys_of(counts);
    let places = order::stable_order_exists(keys);
    order::stable_order_is_unique(keys, places);
    assert(order::before(keys, places[a] as int, places[b] as int));
}

/// Every counted color is in the ranking.
pub proof fn every_color_is_ranked(counts: Seq<(Argb, u32)>, i: int)
    requires
        0 <= i < counts.len() <= usize::MAX,
    ensures
        ranked_of(counts).contains(counts[i].0),
{
    let keys = rank_keys_of(counts);
    let places = order::stable_order_exists(keys);
    order::stable_order_is_unique(keys, places);
    assert(places.contains(i as usize));
    let k = choose|k: int| 0 <= k < places.len() && places[k] == i as usize;
    assert(ranked_of(counts)[k] == counts[i].0);
}

/// The channels of two opaque colors that differ are not the same.
proof fn channels_tell_colors_apart(a: Rgb, b: Rgb, c: Argb, d: Argb)
    requires
        a.is_of(c),
        b.is_of(d),
        c.alpha == d.alpha,
        c != d,
    ensures
        a != b,
{
    crate::angle::degrees_are_small();
    let u = crate::binary64::one() as int;
    assert forall|m: u8, n: u8| #[trigger] (m * u) == #[trigger] (n * u) implies m == n by {
        assert(m == n) by (nonlinear_arith)
            requires
                m * u == n * u,
                u > 0,
        ;
    }
    if a == b {
        assert(c.red * u == d.red * u && c.green * u == d.green * u && c.blue * u == d.blue * u);
    }
}

/// A palette has at most as many colors as were asked for, no color twice, and at least one unless
/// the image was brought to a width of 0.
pub proof fn palette_is_bounded(backend: CelebiBackend, image: RgbImage, palette: Seq<Rgb>)
    requires
        backend.accepts(image),
        backend.may_extract(image, palette),
    ensures
        palette.len() <= backend.max_colors,
        palette.len() == 0 <==> backend.resize_width == 0,
        forall|a: int, b: int|
            0 <= a < b < palette.len() ==> #[trigger] palette[a] != #[trigger] palette[b],
        forall|a: int| 0 <= a < palette.len() ==> (#[trigger] palette[a]).valid(),
{
    if backend.resize_width > 0 {
        let pixels = raster::pixels_of(
            raster::resized_of(image.width, image.height, image.data@, backend.resize_width),
        );
        let counts = choose|counts: Seq<(Argb, u32)>| #[trigger]
            is_quantization(pixels, backend.max_colors, counts) && are_channels_of(
                palette,
                ranked_of(counts),
            );
        let ranked = ranked_of(counts);
        let places = order::stable_order_of(rank_keys_of(counts));
        assert forall|a: int, b: int| 0 <= a < b < palette.len() implies #[trigger] palette[a]
            != #[trigger] palette[b] by {
            frequent_colors_come_first(counts, a, b);
            let (i, j) = (places[a] as int, places[b] as int);
            assert(counts[i].0 != counts[j].0) by {
                if i < j {
                    assert(counts[i].0 != counts[j].0);
                } else {
                    assert(counts[j].0 != counts[i].0);
                }
            }
            channels_tell_colors_apart(palette[a], palette[b], ranked[a], ranked[b]);
        }
        assert forall|a: int| 0 <= a < palette.len() implies (#[trigger] palette[a]).valid() by {
            color::whole_channels_are_valid(palette[a], ranked[a]);
        }
    }
}

} // verus!
