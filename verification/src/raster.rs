//! Images in 8-bit channels.
use vstd::prelude::*;

use crate::color::Argb;

verus! {

/// An image: red, green and blue of every pixel, row by row.
#[derive(Debug)]
pub struct RgbImage {
    pub width: u32,
    pub height: u32,
    pub data: Vec<u8>,
}

impl RgbImage {
    /// There are three channels for every pixel.
    pub open spec fn well_formed(self) -> bool {
        self.data@.len() == 3 * (self.width * self.height)
    }
}

/// The channels of an image brought to `target` by `target` pixels.
pub uninterp spec fn resized_of(width: u32, height: u32, data: Seq<u8>, target: u32) -> Seq<u8>;

/// Calls `image::imageops::resize` with the triangle filter.
///
/// Claimed are that the channels depend on the image and the target alone, that they are those of
/// `target` by `target` pixels, that an image of that size is left as it is, and that a blank
/// image comes of one without pixels; so resizing what came out once more changes nothing. The
/// buffers made on the way must fit in memory: four single precision channels for `target` rows of
/// the image, and the result. Positions are computed in single precision, with an error that stays
/// below a pixel of the coarser of the two images for up to 2^20 pixels.
#[verifier::external_body]
fn resize_channels(width: u32, height: u32, data: &Vec<u8>, target: u32) -> (r: Vec<u8>)
    requires
        data@.len() == 3 * (width * height),
        target <= 0x10_0000,
        16 * (width * target) <= isize::MAX,
        3 * (target * target) <= isize::MAX,
    ensures
        r@ == resized_of(width, height, data@, target),
        r@.len() == 3 * (target * target),
        width == target && height == target ==> r@ == data@,
        resized_of(target, target, r@, target) == r@,
        width == 0 || height == 0 ==> forall|i: int| 0 <= i < r@.len() ==> #[trigger] r@[i] == 0,
{
    let image = image::RgbImage::from_raw(width, height, data.clone()).unwrap();
    let filter = image::imageops::FilterType::Triangle;
    image::imageops::resize(&image, target, target, filter).into_raw()
}

/// An image can be brought to `target` by `target` pixels.
pub open spec fn resizable(image: RgbImage, target: u32) -> bool {
    &&& image.well_formed()
    &&& target <= 0x10_0000
    &&& 16 * (image.width * target) <= isize::MAX
    &&& 3 * (target * target) <= isize::MAX
}

/// Resizes the image to a square for color extraction.
pub fn resize_image(image: &RgbImage, target_width: u32) -> (r: RgbImage)
    requires
        resizable(*image, target_width),
    ensures
        r.well_formed(),
        r.width == target_width,
        r.height == target_width,
        r.data@ == resized_of(image.width, image.height, image.data@, target_width),
        image.width == target_width && image.height == target_width ==> r.data@ == image.data@,
        resized_of(r.width, r.height, r.data@, target_width) == r.data@,
        image.width == 0 || image.height == 0 ==> forall|i: int|
            0 <= i < r.data@.len() ==> #[trigger] r.data@[i] == 0,
{
    let data: Vec<u8> = resize_channels(image.width, image.height, &image.data, target_width);
    RgbImage { width: target_width, height: target_width, data }
}

/// The pixels with the given channels, fully opaque.
pub open spec fn pixels_of(data: Seq<u8>) -> Seq<Argb> {
    Seq::new(
        data.len() / 3,
        |i: int|
            Argb { alpha: 255, red: data[3 * i], green: data[3 * i + 1], blue: data[3 * i + 2] },
    )
}

/// The pixels of an image, fully opaque.
pub fn opaque_pixels(image: &RgbImage) -> (r: Vec<Argb>)
    requires
        image.well_formed(),
    ensures
        r@ == pixels_of(image.data@),
        r@.len() == image.width * image.height,
        forall|i: int|
            0 <= i < r@.len() ==> {
                &&& (#[trigger] r@[i]).alpha == 255
                &&& r@[i].red == image.data@[3 * i]
                &&& r@[i].green == image.data@[3 * i + 1]
                &&& r@[i].blue == image.data@[3 * i + 2]
            },
{
    let channels: usize = image.data.len();
    let count: usize = channels / 3;
    let mut pixels: Vec<Argb> = Vec::new();
    let mut i: usize = 0;
    while i < count
        invariant
            i <= count,
            channels == image.data@.len(),
            count == channels / 3,
            pixels@.len() == i,
            forall|j: int| 0 <= j < i ==> #[trigger] pixels@[j] == pixels_of(image.data@)[j],
        decreases count - i,
    {
        pixels.push(
            Argb::new(255, image.data[3 * i], image.data[3 * i + 1], image.data[3 * i + 2]),
        );
        i = i + 1;
    }
    assert(pixels@ =~= pixels_of(image.data@));
    pixels
}

/// What came of decoding: width, height and channels of the image, or none.
pub open spec fn outcome_of(decoded: Result<RgbImage, image::ImageError>) -> Option<
    (u32, u32, Seq<u8>),
> {
    match decoded {
        Ok(image) => Some((image.width, image.height, image.data@)),
        Err(_) => None,
    }
}

/// What may come of decoding the bytes of a file: width, height and channels of an image, or none.
pub uninterp spec fn decodings(path: Seq<char>, bytes: Seq<u8>) -> Set<
    Option<(u32, u32, Seq<u8>)>,
>;

/// Calls `image::ImageReader::decode` on the bytes of a file, in the format that they show, and in
/// that which the path stands for where they show none, and converts the image with
/// `image::DynamicImage::to_rgb8`.
///
/// Claimed are that the image, or the failure, is one that may come of these bytes and this path,
/// and that an image has three channels for every pixel. Which bytes are an image, and of which
/// pixels, is left to the formats. It is not claimed that the same bytes always fare alike:
/// decoders fail where memory is short, and a process can register formats of its own.
///
/// A path counts by the formats that `image::ImageFormat::from_path` knows: where the bytes show no
/// format, an extension that it does not know leaves none. A format registered for that extension
/// is then not tried, and the error does not name it.
#[verifier::external_body]
fn decode_bytes(path: &str, bytes: &Vec<u8>) -> (r: Result<RgbImage, image::ImageError>)
    ensures
        decodings(path@, bytes@).contains(outcome_of(r)),
        r matches Ok(image) ==> image.well_formed(),
{
    let mut reader = image::ImageReader::new(std::io::Cursor::new(bytes));
    if let Ok(format) = image::ImageFormat::from_path(path) {
        reader.set_format(format);
    }
    let image = reader.with_guessed_format()?.decode()?.to_rgb8();
    Ok(RgbImage { width: image.width(), height: image.height(), data: image.into_raw() })
}

/// `decoded` may come of decoding the bytes of a file, be it an image or a failure.
pub open spec fn may_decode(
    path: Seq<char>,
    bytes: Seq<u8>,
    decoded: Result<RgbImage, image::ImageError>,
) -> bool {
    &&& decodings(path, bytes).contains(outcome_of(decoded))
    &&& decoded matches Ok(image) ==> image.well_formed()
}

/// The image that the bytes of a file hold. It fails only where decoding these bytes may fail.
pub fn decode(path: &str, bytes: &Vec<u8>) -> (r: Result<RgbImage, image::ImageError>)
    ensures
        may_decode(path@, bytes@, r),
{
    decode_bytes(path, bytes)
}

/// What may come of decoding bytes: width, height and channels of an image, or none.
pub uninterp spec fn memory_decodings(bytes: Seq<u8>) -> Set<Option<(u32, u32, Seq<u8>)>>;

/// Calls `image::load_from_memory` and converts the image with `image::DynamicImage::to_rgb8`.
///
/// Claimed are that the image, or the failure, is one that may come of these bytes, and that an
/// image has three channels for every pixel. Which bytes are an image, and of which pixels, is left
/// to the formats. It is not claimed that the same bytes always fare alike: decoders fail where
/// memory is short, and a process can register formats of its own.
#[verifier::external_body]
fn load_bytes(bytes: &Vec<u8>) -> (r: Result<RgbImage, image::ImageError>)
    ensures
        memory_decodings(bytes@).contains(outcome_of(r)),
        r matches Ok(image) ==> image.well_formed(),
{
    let image = image::load_from_memory(bytes)?.to_rgb8();
    Ok(RgbImage { width: image.width(), height: image.height(), data: image.into_raw() })
}

/// `decoded` may come of decoding the bytes, be it an image or a failure.
pub open spec fn may_load(bytes: Seq<u8>, decoded: Result<RgbImage, image::ImageError>) -> bool {
    &&& memory_decodings(bytes).contains(outcome_of(decoded))
    &&& decoded matches Ok(image) ==> image.well_formed()
}

/// The image that the bytes hold. It fails only where decoding these bytes may fail.
pub fn load(bytes: &Vec<u8>) -> (r: Result<RgbImage, image::ImageError>)
    ensures
        may_load(bytes@, r),
{
    load_bytes(bytes)
}

} // verus!
