//! What the pixels of an image, a ranking of colors and an extracted palette hold.
use vstd::prelude::*;

use crate::backend::{Extractor, PaletteBackend};
use crate::binary64;
use crate::celebi;
use crate::celebi::CelebiBackend;
use crate::color::{Argb, Rgb};
use crate::order;
use crate::raster;
use crate::raster::RgbImage;

verus! {

/// The color has these channels and is opaque.
pub open spec fn has_channels(color: Argb, data: Seq<u8>, i: int) -> bool {
    &&& color.alpha == 255
    &&& color.red == data[i]
    &&& color.green == data[i + 1]
    &&& color.blue == data[i + 2]
}

/// An image has a pixel for every three channels, each of them opaque and with its own three
/// channels.
pub proof fn pixels_are_the_image(image: RgbImage)
    requires
        image.data@.len() == 3 * (image.width * image.height),
    ensures
        raster::pixels_of(image.data@).len() == image.width * image.height,
        forall|i: int|
            0 <= i < image.width * image.height ==> has_channels(
                #[trigger] raster::pixels_of(image.data@)[i],
                image.data@,
                3 * i,
            ),
{
}

/// No two images of a size have the same pixels.
pub proof fn pixels_tell_images_apart(a: RgbImage, b: RgbImage)
    requires
        a.data@.len() == 3 * (a.width * a.height),
        b.data@.len() == 3 * (b.width * b.height),
        raster::pixels_of(a.data@) == raster::pixels_of(b.data@),
    ensures
        a.data@ == b.data@,
{
    pixels_are_the_image(a);
    pixels_are_the_image(b);
    let (p, q) = (raster::pixels_of(a.data@), raster::pixels_of(b.data@));
    assert forall|k: int| 0 <= k < a.data@.len() implies a.data@[k] == b.data@[k] by {
        let i = k / 3;
        assert(has_channels(p[i], a.data@, 3 * i));
        assert(has_channels(q[i], b.data@, 3 * i));
    }
    assert(a.data@ =~= b.data@);
}

/// An image has three channels for every pixel, and every such image is well-formed.
pub proof fn well_formed_images(image: RgbImage)
    ensures
        image.well_formed() <==> image.data@.len() == 3 * (image.width * image.height),
{
}

/// What may be decoded from a file: an image with its size and its channels, or a failure.
pub proof fn decoded_images(
    path: Seq<char>,
    bytes: Seq<u8>,
    decoded: Result<RgbImage, image::ImageError>,
)
    requires
        raster::may_decode(path, bytes, decoded),
    ensures
        decoded matches Ok(image) ==> {
            &&& image.data@.len() == 3 * (image.width * image.height)
            &&& raster::decodings(path, bytes).contains(
                Some((image.width, image.height, image.data@)),
            )
        },
        decoded is Err ==> raster::decodings(path, bytes).contains(None),
{
}

/// What may be loaded from bytes: an image with its size and its channels, or a failure.
pub proof fn loaded_images(bytes: Seq<u8>, decoded: Result<RgbImage, image::ImageError>)
    requires
        raster::may_load(bytes, decoded),
    ensures
        decoded matches Ok(image) ==> {
            &&& image.data@.len() == 3 * (image.width * image.height)
            &&& raster::memory_decodings(bytes).contains(
                Some((image.width, image.height, image.data@)),
            )
        },
        decoded is Err ==> raster::memory_decodings(bytes).contains(None),
{
}

/// The order of a list has every index once; keys ascend along it, and indices ascend along equal
/// keys.
pub proof fn order_sorts(keys: Seq<i64>, order: Seq<usize>)
    requires
        order::is_stable_order(keys, order),
    ensures
        order.len() == keys.len(),
        forall|a: int| 0 <= a < order.len() ==> #[trigger] order[a] < keys.len(),
        forall|i: usize| i < keys.len() ==> #[trigger] order.contains(i),
        forall|a: int, b: int|
            0 <= a < b < order.len() ==> {
                let (i, j) = (#[trigger] order[a] as int, #[trigger] order[b] as int);
                i != j && keys[i] <= keys[j] && (keys[i] == keys[j] ==> i < j)
            },
{
    assert forall|a: int, b: int| 0 <= a < b < order.len() implies {
        let (i, j) = (#[trigger] order[a] as int, #[trigger] order[b] as int);
        i != j && keys[i] <= keys[j] && (keys[i] == keys[j] ==> i < j)
    } by {
        assert(order::before(keys, order[a] as int, order[b] as int));
    }
}

/// Whatever lists every index once, by ascending key and in order along equal keys, is the order of
/// a list.
pub proof fn what_sorts_is_the_order(keys: Seq<i64>, order: Seq<usize>)
    requires
        order.len() == keys.len(),
        forall|a: int| 0 <= a < order.len() ==> #[trigger] order[a] < keys.len(),
        forall|i: usize| i < keys.len() ==> #[trigger] order.contains(i),
        forall|a: int, b: int|
            0 <= a < b < order.len() ==> {
                let (i, j) = (#[trigger] order[a] as int, #[trigger] order[b] as int);
                i != j && keys[i] <= keys[j] && (keys[i] == keys[j] ==> i < j)
            },
    ensures
        order::is_stable_order(keys, order),
        order == order::stable_order_of(keys),
{
    assert forall|a: int, b: int| 0 <= a < b < order.len() implies order::before(
        keys,
        #[trigger] order[a] as int,
        #[trigger] order[b] as int,
    ) by {
        let (i, j) = (order[a] as int, order[b] as int);
    }
    order::stable_order_is_unique(keys, order);
}

/// The places list every index once, higher counts first, and equal counts in order.
pub open spec fn is_ranking(counts: Seq<(Argb, u32)>, places: Seq<usize>) -> bool {
    &&& places.len() == counts.len()
    &&& forall|a: int| 0 <= a < places.len() ==> #[trigger] places[a] < counts.len()
    &&& forall|i: usize| i < counts.len() ==> #[trigger] places.contains(i)
    &&& forall|a: int, b: int|
        0 <= a < b < places.len() ==> {
            let (i, j) = (#[trigger] places[a] as int, #[trigger] places[b] as int);
            counts[i].1 > counts[j].1 || (counts[i].1 == counts[j].1 && i < j)
        }
}

/// The palette has the channels of the counted colors, in the order of the places.
pub open spec fn lists_colors(
    palette: Seq<Rgb>,
    counts: Seq<(Argb, u32)>,
    places: Seq<usize>,
) -> bool {
    &&& palette.len() == places.len()
    &&& forall|a: int|
        0 <= a < palette.len() ==> {
            let color = counts[#[trigger] places[a] as int].0;
            &&& palette[a].red.finite() && palette[a].red.value() == color.red * binary64::one()
            &&& palette[a].green.finite() && palette[a].green.value() == color.green
                * binary64::one()
            &&& palette[a].blue.finite() && palette[a].blue.value() == color.blue * binary64::one()
        }
}

/// A palette of counted colors has every one of them, the more frequent ones first and equally
/// frequent ones in the order in which they were counted.
pub proof fn palettes_are_ranked(counts: Seq<(Argb, u32)>, palette: Seq<Rgb>) -> (places: Seq<
    usize,
>)
    requires
        counts.len() <= usize::MAX,
        celebi::are_channels_of(palette, celebi::ranked_of(counts)),
    ensures
        is_ranking(counts, places),
        lists_colors(palette, counts, places),
{
    let keys = celebi::rank_keys_of(counts);
    let places = order::stable_order_exists(keys);
    order::stable_order_is_unique(keys, places);
    order_sorts(keys, places);
    let colors = celebi::ranked_of(counts);
    assert forall|a: int, b: int| 0 <= a < b < places.len() implies {
        let (i, j) = (#[trigger] places[a] as int, #[trigger] places[b] as int);
        counts[i].1 > counts[j].1 || (counts[i].1 == counts[j].1 && i < j)
    } by {
        let (i, j) = (places[a] as int, places[b] as int);
        assert(keys[i] == -(counts[i].1 as int) && keys[j] == -(counts[j].1 as int));
    }
    assert forall|a: int| 0 <= a < palette.len() implies {
        let color = counts[#[trigger] places[a] as int].0;
        &&& palette[a].red.finite() && palette[a].red.value() == color.red * binary64::one()
        &&& palette[a].green.finite() && palette[a].green.value() == color.green * binary64::one()
        &&& palette[a].blue.finite() && palette[a].blue.value() == color.blue * binary64::one()
    } by {
        assert(palette[a].is_of(colors[a]));
    }
    places
}

/// The palette of an image comes of counting the colors of all pixels of the image brought to the
/// width of the backend, asked for as many colors as the backend says; it has every counted color,
/// the more frequent ones first. An image brought to a width of 0 has an empty palette.
pub proof fn palettes_come_of_all_pixels(
    backend: CelebiBackend,
    image: RgbImage,
    palette: Seq<Rgb>,
)
    requires
        backend.accepts(image),
        backend.may_extract(image, palette),
    ensures
        backend.resize_width == 0 ==> palette.len() == 0,
        backend.resize_width > 0 ==> exists|
            pixels: Seq<Argb>,
            counts: Seq<(Argb, u32)>,
            places: Seq<usize>,
        |
            {
                let channels = raster::resized_of(
                    image.width,
                    image.height,
                    image.data@,
                    backend.resize_width,
                );
                &&& 3 * pixels.len() <= channels.len() < 3 * pixels.len() + 3
                &&& forall|i: int|
                    0 <= i < pixels.len() ==> has_channels(#[trigger] pixels[i], channels, 3 * i)
                &&& #[trigger] celebi::quantizations(pixels, backend.max_colors).contains(counts)
                &&& #[trigger] is_ranking(counts, places)
                &&& lists_colors(palette, counts, places)
                &&& 1 <= counts.len() <= backend.max_colors
            },
{
    if backend.resize_width > 0 {
        let channels = raster::resized_of(
            image.width,
            image.height,
            image.data@,
            backend.resize_width,
        );
        let pixels = raster::pixels_of(channels);
        let counts = choose|counts: Seq<(Argb, u32)>| #[trigger]
            celebi::is_quantization(pixels, backend.max_colors, counts) && celebi::are_channels_of(
                palette,
                celebi::ranked_of(counts),
            );
        let places = palettes_are_ranked(counts, palette);
        assert(celebi::quantizations(pixels, backend.max_colors).contains(counts));
        assert(is_ranking(counts, places));
        assert forall|i: int| 0 <= i < pixels.len() implies has_channels(
            #[trigger] pixels[i],
            channels,
            3 * i,
        ) by {}
    }
}

/// The images that a palette is extracted from are those whose buffers fit in memory, where the
/// number of colors is from 1 to 1024 and a square of that width has less than 2^32 pixels; none
/// of that is asked for a width of 0.
pub proof fn images_that_are_taken(backend: CelebiBackend, image: RgbImage)
    requires
        image.well_formed(),
        backend.resize_width <= 0xffff,
        16 * (image.width * backend.resize_width) <= isize::MAX,
        3 * (backend.resize_width * backend.resize_width) <= isize::MAX,
        backend.resize_width == 0 || 1 <= backend.max_colors <= 1024,
    ensures
        backend.accepts(image),
{
    let w = backend.resize_width as int;
    assert(0 < w <= 0xffff ==> 1 <= w * w <= 0xffff_ffff) by (nonlinear_arith);
}

/// An extractor does what the backend in it does, and the preset takes up to 16 colors of an image
/// brought to a width of 300.
pub proof fn extractors_are_their_backends<W: PaletteBackend>(
    wal: W,
    celebi: CelebiBackend,
    image: RgbImage,
    palette: Seq<Rgb>,
)
    ensures
        CelebiBackend::preset() == (CelebiBackend { max_colors: 16, resize_width: 300 }),
        Extractor::Wal(wal).accepts(image) == wal.accepts(image),
        Extractor::Wal(wal).may_extract(image, palette) == wal.may_extract(image, palette),
        Extractor::<W>::Celebi(celebi).accepts(image) == celebi.accepts(image),
        Extractor::<W>::Celebi(celebi).may_extract(image, palette) == celebi.may_extract(
            image,
            palette,
        ),
{
}

} // verus!
