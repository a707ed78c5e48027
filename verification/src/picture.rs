//! Pictures as the `image` crate decodes, shrinks, compares and encodes them.

use crate::scanner::similarity;
use crate::text;
use image::codecs::png::{CompressionType, FilterType, PngEncoder};
use image::codecs::webp::WebPEncoder;
use image::error::ImageFormatHint;
use image::{DynamicImage, ImageDecoder, ImageEncoder, ImageError, ImageFormat, ImageReader};
use std::io::Cursor;
use vstd::prelude::*;

verus! {

/// A decoded image of the `image` crate.
#[verifier::external_type_specification]
#[verifier::external_body]
pub struct ExDynamicImage(DynamicImage);

/// The width and height of an image, the kind of its pixels (see
/// [`channels`]), and whether its colours are sRGB.
pub uninterp spec fn image_layout(image: DynamicImage) -> (u32, u32, u8, bool);

/// The samples of an image, row by row and pixel by pixel. A floating-point
/// sample stands by its bits; what is not a number stands as one value.
pub uninterp spec fn image_samples(image: DynamicImage) -> Seq<u32>;

/// How many samples a pixel has, by the number of its kind: 8-bit grey, grey
/// with alpha, RGB, RGBA; the same in 16 bits; RGB and RGBA in 32-bit floating
/// point.
pub open spec fn channels(kind: u8) -> nat {
    if kind == 0 || kind == 4 {
        1
    } else if kind == 1 || kind == 5 {
        2
    } else if kind == 2 || kind == 6 || kind == 8 {
        3
    } else {
        4
    }
}

/// Whether a sample takes one byte.
pub open spec fn is_shallow(kind: u8) -> bool {
    kind <= 3
}

/// Whether a sample takes 16 bits.
pub open spec fn is_deep(kind: u8) -> bool {
    4 <= kind <= 7
}

/// Whether an image has colours in sRGB, and as many samples as its size and
/// the kind of its pixels call for.
pub open spec fn is_whole(image: DynamicImage) -> bool {
    let (width, height, kind, srgb) = image_layout(image);
    &&& srgb
    &&& kind < 10
    &&& image_samples(image).len() == width * height * channels(kind)
}

/// What a picture is: its width, height, kind of pixels and samples.
pub type PictureValue = (u32, u32, u8, Seq<u32>);

/// The value of an image.
pub open spec fn image_value(image: DynamicImage) -> PictureValue {
    let (width, height, kind, _) = image_layout(image);
    (width, height, kind, image_samples(image))
}

/// The value of an image that was read, or why it was not.
pub open spec fn image_result(r: Result<DynamicImage, String>) -> Result<PictureValue, Seq<char>> {
    match r {
        Ok(image) => Ok(image_value(image)),
        Err(e) => Err(e@),
    }
}

/// The bytes, if there are any.
pub open spec fn bytes_of(b: Option<Vec<u8>>) -> Option<Seq<u8>> {
    match b {
        Some(v) => Some(v@),
        None => None,
    }
}

/// Whether the extension, in whatever case, stands for a format of images.
pub open spec fn names_format(ext: Seq<char>) -> bool {
    similarity::is_image_extension(text::ascii_lower(ext))
}

/// `DynamicImage::width`: the width of the image.
pub assume_specification[ DynamicImage::width ](image: &DynamicImage) -> (r: u32)
    ensures
        r == image_layout(*image).0,
;

/// `DynamicImage::height`: the height of the image.
pub assume_specification[ DynamicImage::height ](image: &DynamicImage) -> (r: u32)
    ensures
        r == image_layout(*image).1,
;

/// `DynamicImage::color`: the kind of the image's pixels, by its number.
#[verifier::external_body]
fn kind_of(image: &DynamicImage) -> (r: u8)
    ensures
        r == image_layout(*image).2,
{
    image.color() as u8
}

/// The extension of the format that the `image` crate recognises by the first
/// bytes of a file.
pub uninterp spec fn guessed_format(bytes: Seq<u8>) -> Option<Seq<char>>;

/// The text, if there is any.
pub open spec fn text_of(t: Option<&str>) -> Option<Seq<char>> {
    match t {
        Some(t) => Some(t@),
        None => None,
    }
}

/// `image::guess_format`: the format depends on the bytes alone. It is given by
/// the first of its extensions, which stands for the format again.
#[verifier::external_body]
pub(crate) fn guess_format(bytes: &[u8]) -> (r: Option<&'static str>)
    ensures
        text_of(r) == guessed_format(bytes@),
        r matches Some(ext) ==> names_format(ext@),
{
    image::guess_format(bytes).ok().map(|format| format.extensions_str()[0])
}

/// What the `image` crate says of a file whose format it doesn't know: one
/// with this extension, or without any.
pub uninterp spec fn unknown_format_text(ext: Option<Seq<char>>) -> Seq<char>;

/// The text of `image::ImageError::Unsupported` for a path's extension, or for
/// an unknown format if there is none. It depends on the extension alone.
#[verifier::external_body]
pub(crate) fn unknown_format(ext: Option<&str>) -> (r: String)
    ensures
        r@ == unknown_format_text(text_of(ext)),
{
    let hint = match ext {
        Some(ext) => ImageFormatHint::PathExtension(ext.into()),
        None => ImageFormatHint::Unknown,
    };
    ImageError::Unsupported(hint.into()).to_string()
}

/// What the `image` crate loads from the bytes of a file in the format of the
/// extension: the picture, or why there is none. It takes no more memory than
/// the crate's limits allow.
pub uninterp spec fn loaded_picture(ext: Seq<char>, bytes: Seq<u8>) -> Result<
    (u32, u32, u8, Seq<u32>),
    Seq<char>,
>;

/// `image::load_from_memory_with_format`, in the format of the extension. What
/// is loaded depends on the two alone, as long as no decoding hook is
/// registered with the crate. The decoders hand out whole images in sRGB.
#[verifier::external_body]
fn load_image(ext: &str, bytes: &[u8]) -> (r: Result<DynamicImage, String>)
    requires
        names_format(ext@),
    ensures
        image_result(r) == loaded_picture(ext@, bytes@),
        r matches Ok(image) ==> is_whole(image),
{
    let format = ImageFormat::from_extension(ext).unwrap();
    image::load_from_memory_with_format(bytes, format).map_err(|e| e.to_string())
}

/// What the `image` crate decodes from the bytes of a file in the format of the
/// extension, however much memory that takes: the picture, or why there is
/// none.
pub uninterp spec fn decoded_picture(ext: Seq<char>, bytes: Seq<u8>) -> Result<
    (u32, u32, u8, Seq<u32>),
    Seq<char>,
>;

/// `DynamicImage::from_decoder`, on the decoder that `image::ImageReader` has
/// for the format of the extension (its type can't be named). What is decoded
/// depends on the two alone, as long as no decoding hook is registered with the
/// crate. The decoders hand out whole images in sRGB.
#[verifier::external_body]
fn decode_image(ext: &str, bytes: &[u8]) -> (r: Result<DynamicImage, String>)
    requires
        names_format(ext@),
    ensures
        image_result(r) == decoded_picture(ext@, bytes@),
        r matches Ok(image) ==> is_whole(image),
{
    let format = ImageFormat::from_extension(ext).unwrap();
    let decoder = ImageReader::with_format(Cursor::new(bytes), format).into_decoder();
    decoder.and_then(DynamicImage::from_decoder).map_err(|e| e.to_string())
}

/// The colour profile that the `image` crate finds in the bytes of a file in
/// the format of the extension.
pub uninterp spec fn colour_profile(ext: Seq<char>, bytes: Seq<u8>) -> Option<Seq<u8>>;

/// `ImageDecoder::icc_profile`, of the decoder that `image::ImageReader` has
/// for the format of the extension. What can't be read counts as missing. The
/// result depends on the two alone, as long as no decoding hook is registered
/// with the crate.
#[verifier::external_body]
pub(crate) fn read_profile(ext: &str, bytes: &[u8]) -> (r: Option<Vec<u8>>)
    requires
        names_format(ext@),
    ensures
        bytes_of(r) == colour_profile(ext@, bytes@),
{
    let format = ImageFormat::from_extension(ext).unwrap();
    let decoder = ImageReader::with_format(Cursor::new(bytes), format).into_decoder();
    decoder.ok()?.icc_profile().ok().flatten()
}

/// The EXIF data that the `image` crate finds in the bytes of a file in the
/// format of the extension.
pub uninterp spec fn exif_data(ext: Seq<char>, bytes: Seq<u8>) -> Option<Seq<u8>>;

/// `ImageDecoder::exif_metadata`, of the decoder that `image::ImageReader` has
/// for the format of the extension. What can't be read counts as missing. The
/// result depends on the two alone, as long as no decoding hook is registered
/// with the crate.
#[verifier::external_body]
pub(crate) fn read_exif(ext: &str, bytes: &[u8]) -> (r: Option<Vec<u8>>)
    requires
        names_format(ext@),
    ensures
        bytes_of(r) == exif_data(ext@, bytes@),
{
    let format = ImageFormat::from_extension(ext).unwrap();
    let decoder = ImageReader::with_format(Cursor::new(bytes), format).into_decoder();
    decoder.ok()?.exif_metadata().ok().flatten()
}

/// How a picture is scaled.
#[derive(Clone, Copy, Debug, PartialEq, Eq, Structural)]
pub enum Sampling {
    /// Each pixel is the nearest one of the original.
    Nearest,
    /// Each pixel is a mean, weighted by how far off the others are.
    Triangle,
}

/// The samples that the `image` crate scales a picture (its width, height, kind
/// of pixels and samples) to: `w` times `h` pixels.
pub uninterp spec fn resized_samples(
    width: u32,
    height: u32,
    kind: u8,
    samples: Seq<u32>,
    w: u32,
    h: u32,
    sampling: Sampling,
) -> Seq<u32>;

/// `DynamicImage::resize_exact`: an image of the same kind and colours in the
/// new size. Its samples depend on the image, the size and the filter alone.
#[verifier::external_body]
fn resize_image(image: &DynamicImage, w: u32, h: u32, sampling: Sampling) -> (r: DynamicImage)
    requires
        is_whole(*image),
        0 < w < 256,
        0 < h < 256,
    ensures
        is_whole(r),
        image_value(r) == (
            w,
            h,
            image_layout(*image).2,
            resized_samples(
                image_layout(*image).0,
                image_layout(*image).1,
                image_layout(*image).2,
                image_samples(*image),
                w,
                h,
                sampling,
            ),
        ),
{
    let filter = match sampling {
        Sampling::Nearest => image::imageops::FilterType::Nearest,
        Sampling::Triangle => image::imageops::FilterType::Triangle,
    };
    image.resize_exact(w, h, filter)
}

/// The brightness that the `image` crate gives to samples of this kind, one
/// byte per pixel.
pub uninterp spec fn luma_samples(kind: u8, samples: Seq<u32>) -> Seq<u8>;

/// `DynamicImage::to_luma8`: one byte per pixel, which depend on the samples
/// and their kind alone if the colours are sRGB.
#[verifier::external_body]
fn luma_of(image: &DynamicImage) -> (r: Vec<u8>)
    requires
        is_whole(*image),
    ensures
        r@ == luma_samples(image_layout(*image).2, image_samples(*image)),
        r@.len() == image_layout(*image).0 * image_layout(*image).1,
{
    image.to_luma8().into_raw()
}

/// The pixels that the `image` crate makes of samples of this kind, as RGBA
/// with 8 bits per channel.
pub uninterp spec fn rgba_samples(kind: u8, samples: Seq<u32>) -> Seq<u8>;

/// `DynamicImage::to_rgba8`: four bytes per pixel, which depend on the samples
/// and their kind alone if the colours are sRGB.
#[verifier::external_body]
fn rgba_of(image: &DynamicImage) -> (r: Vec<u8>)
    requires
        is_whole(*image),
    ensures
        r@ == rgba_samples(image_layout(*image).2, image_samples(*image)),
        r@.len() == 4 * image_layout(*image).0 * image_layout(*image).1,
{
    image.to_rgba8().into_raw()
}

/// No more than this many pixels may be added up into one: sums are taken in 32
/// bits, with half the number of pixels on top for rounding.
pub open spec fn block_limit(kind: u8) -> int {
    if is_shallow(kind) {
        16_000_000
    } else if is_deep(kind) {
        65_536
    } else {
        4_000_000_000
    }
}

/// How long the shorter side of a picture at least is once the longer one has
/// been shrunk to `side`: rounded to the nearest, down if that is a tie, and
/// never nothing.
pub open spec fn shrunk_side(short: int, long: int, side: int) -> int {
    let n = (2 * short * side + long - 1) / (2 * long);
    if n < 1 {
        1
    } else {
        n
    }
}

/// Whether rounding the shorter side is no tie.
pub open spec fn rounds_clearly(short: int, long: int, side: int) -> bool {
    (2 * short * side + long) % (2 * long) != 0
}

/// How many of `len` pixels at most go into one of `n`. Their borders are
/// computed in 32-bit floating point: exactly if they are whole numbers, and
/// otherwise to within a pixel, or more for very long sides.
pub open spec fn block_side(len: int, n: int, clear: bool) -> int {
    if clear && len % n == 0 && len <= 16_777_216 {
        len / n
    } else {
        len / n + 2 + len / 1_000_000
    }
}

/// How many pixels of a picture at most go into one of a thumbnail.
pub open spec fn largest_block(width: u32, height: u32, side: u32) -> int {
    let long = if width >= height {
        width as int
    } else {
        height as int
    };
    let short = if width >= height {
        height as int
    } else {
        width as int
    };
    block_side(long, side as int, true) * block_side(
        short,
        shrunk_side(short, long, side as int),
        rounds_clearly(short, long, side as int),
    )
}

/// Whether a picture can be shrunk to a thumbnail: the sums must fit.
pub open spec fn has_small_blocks(width: u32, height: u32, kind: u8, side: u32) -> bool {
    width == 0 || height == 0 || largest_block(width, height, side) <= block_limit(kind)
}

/// What the `image` crate shrinks a picture (its width, height, kind of pixels
/// and samples) to in a square of this side: the width, the height and the
/// samples.
pub uninterp spec fn thumbnail_samples(
    width: u32,
    height: u32,
    kind: u8,
    samples: Seq<u32>,
    side: u32,
) -> (u32, u32, Seq<u32>);

/// `DynamicImage::thumbnail`: an image of the same kind and colours. Its size
/// and samples depend on the image and the side alone. It adds up the samples
/// of each block of pixels in 32 bits.
#[verifier::external_body]
fn thumbnail_image(image: &DynamicImage, side: u32) -> (r: DynamicImage)
    requires
        is_whole(*image),
        0 < side < 256,
        has_small_blocks(
            image_layout(*image).0,
            image_layout(*image).1,
            image_layout(*image).2,
            side,
        ),
    ensures
        is_whole(r),
        image_layout(r).2 == image_layout(*image).2,
        (image_layout(r).0, image_layout(r).1, image_samples(r)) == thumbnail_samples(
            image_layout(*image).0,
            image_layout(*image).1,
            image_layout(*image).2,
            image_samples(*image),
            side,
        ),
{
    image.thumbnail(side, side)
}

/// Equality of `DynamicImage::as_bytes`, of two images of one kind: whether
/// they have the same samples. Floating-point samples are compared by their
/// bits, of which there are several for what is not a number.
#[verifier::external_body]
fn same_samples(a: &DynamicImage, b: &DynamicImage) -> (r: bool)
    requires
        is_whole(*a),
        is_whole(*b),
        image_layout(*a).2 == image_layout(*b).2,
    ensures
        r ==> image_samples(*a) == image_samples(*b),
        image_layout(*a).2 < 8 && image_samples(*a) == image_samples(*b) ==> r,
{
    a.as_bytes() == b.as_bytes()
}

/// Why a picture was not encoded.
#[derive(Debug, PartialEq)]
pub enum Refusal {
    /// The format can't hold the colour profile.
    Icc,
    /// The format can't hold the EXIF data.
    Exif,
    /// The encoder failed.
    Encoding(String),
}

/// The value of an encoded file; a refusal by its number and its text.
pub open spec fn encoded_value(r: Result<Vec<u8>, Refusal>) -> Result<Seq<u8>, (u8, Seq<char>)> {
    match r {
        Ok(b) => Ok(b@),
        Err(Refusal::Icc) => Err((0, seq![])),
        Err(Refusal::Exif) => Err((1, seq![])),
        Err(Refusal::Encoding(e)) => Err((2, e@)),
    }
}

/// The most bytes that a colour profile, and EXIF data, can have in a WebP
/// file: the lengths of a file and of its parts are kept in 32 bits, and the
/// pixels may take half of them.
pub const WEBP_METADATA_LIMIT: usize = 1_073_741_823;

/// Whether a WebP file can hold a colour profile, or EXIF data.
pub open spec fn fits_webp(metadata: Option<Seq<u8>>) -> bool {
    metadata matches Some(m) ==> m.len() <= WEBP_METADATA_LIMIT
}

/// What the `image` crate's lossless WebP encoder makes of a picture with one
/// byte per sample: its width, height, kind of pixels and samples, with a
/// colour profile and EXIF data.
pub uninterp spec fn webp_file(
    width: u32,
    height: u32,
    kind: u8,
    samples: Seq<u32>,
    icc: Option<Seq<u8>>,
    exif: Option<Seq<u8>>,
) -> Result<Seq<u8>, (u8, Seq<char>)>;

/// `ImageEncoder::write_image` of `image::codecs::webp::WebPEncoder`, made by
/// `new_lossless` and handed the colour profile and the EXIF data if there are
/// any, on a picture with one byte per sample. The file depends on the picture
/// and on them alone.
#[verifier::external_body]
fn write_webp(image: &DynamicImage, icc: Option<Vec<u8>>, exif: Option<Vec<u8>>) -> (r: Result<
    Vec<u8>,
    Refusal,
>)
    requires
        is_whole(*image),
        is_shallow(image_layout(*image).2),
        fits_webp(bytes_of(icc)),
        fits_webp(bytes_of(exif)),
    ensures
        encoded_value(r) == webp_file(
            image_layout(*image).0,
            image_layout(*image).1,
            image_layout(*image).2,
            image_samples(*image),
            bytes_of(icc),
            bytes_of(exif),
        ),
{
    let mut out: Vec<u8> = Vec::new();
    let mut encoder = WebPEncoder::new_lossless(&mut out);
    if let Some(icc) = icc {
        encoder.set_icc_profile(icc).map_err(|_| Refusal::Icc)?;
    }
    if let Some(exif) = exif {
        encoder.set_exif_metadata(exif).map_err(|_| Refusal::Exif)?;
    }
    encoder.write_image(image.as_bytes(), image.width(), image.height(), image.color().into())
        .map_err(|e| Refusal::Encoding(e.to_string()))?;
    Ok(out)
}

/// What the `image` crate's PNG encoder makes of a picture, at its best
/// compression and with adaptive filters: its width, height, kind of pixels and
/// samples, with a colour profile and EXIF data.
pub uninterp spec fn png_file(
    width: u32,
    height: u32,
    kind: u8,
    samples: Seq<u32>,
    icc: Option<Seq<u8>>,
    exif: Option<Seq<u8>>,
) -> Result<Seq<u8>, (u8, Seq<char>)>;

/// `ImageEncoder::write_image` of `image::codecs::png::PngEncoder`, made by
/// `new_with_quality` for its best compression and adaptive filters and handed
/// the colour profile and the EXIF data if there are any. The file depends on
/// the picture and on them alone. Floating-point samples are refused, whatever
/// they are.
#[verifier::external_body]
fn write_png(image: &DynamicImage, icc: Option<Vec<u8>>, exif: Option<Vec<u8>>) -> (r: Result<
    Vec<u8>,
    Refusal,
>)
    requires
        is_whole(*image),
    ensures
        encoded_value(r) == png_file(
            image_layout(*image).0,
            image_layout(*image).1,
            image_layout(*image).2,
            image_samples(*image),
            bytes_of(icc),
            bytes_of(exif),
        ),
        image_layout(*image).2 >= 8 ==> r is Err,
{
    let mut out: Vec<u8> = Vec::new();
    let mut encoder = PngEncoder::new_with_quality(&mut out, CompressionType::Best, FilterType::Adaptive);
    if let Some(icc) = icc {
        encoder.set_icc_profile(icc).map_err(|_| Refusal::Icc)?;
    }
    if let Some(exif) = exif {
        encoder.set_exif_metadata(exif).map_err(|_| Refusal::Exif)?;
    }
    encoder.write_image(image.as_bytes(), image.width(), image.height(), image.color().into())
        .map_err(|e| Refusal::Encoding(e.to_string()))?;
    Ok(out)
}

/// A decoded picture.
#[derive(Debug)]
pub struct Picture {
    image: DynamicImage,
}

/// The value of a picture that was read, or why it was not.
pub open spec fn picture_result(r: Result<Picture, String>) -> Result<PictureValue, Seq<char>> {
    match r {
        Ok(p) => Ok(p.value()),
        Err(e) => Err(e@),
    }
}

/// Whether two pictures are the same to the pixel. Pictures of one kind are
/// compared sample by sample. Others are only the same if both have 8 bits per
/// channel, as RGBA, since lossless WebP may hand grayscale back as RGB; deeper
/// ones must be of one kind.
pub open spec fn look_same(a: PictureValue, b: PictureValue) -> bool {
    &&& a.0 == b.0 && a.1 == b.1
    &&& if a.2 == b.2 {
        a.3 == b.3
    } else {
        is_shallow(a.2) && is_shallow(b.2) && rgba_samples(a.2, a.3) == rgba_samples(b.2, b.3)
    }
}

impl Picture {
    #[verifier::type_invariant]
    closed spec fn is_valid(self) -> bool {
        is_whole(self.image)
    }

    /// The picture's width, height, kind of pixels and samples.
    pub closed spec fn value(self) -> PictureValue {
        image_value(self.image)
    }

    /// Loads a file's content in the format of the extension, within the
    /// limits for memory.
    pub fn load(ext: &str, bytes: &[u8]) -> (r: Result<Picture, String>)
        requires
            names_format(ext@),
        ensures
            picture_result(r) == loaded_picture(ext@, bytes@),
    {
        match load_image(ext, bytes) {
            Ok(image) => Ok(Picture { image }),
            Err(e) => Err(e),
        }
    }

    /// Decodes a file's content in the format of the extension, whatever memory
    /// that takes.
    pub fn decode(ext: &str, bytes: &[u8]) -> (r: Result<Picture, String>)
        requires
            names_format(ext@),
        ensures
            picture_result(r) == decoded_picture(ext@, bytes@),
    {
        match decode_image(ext, bytes) {
            Ok(image) => Ok(Picture { image }),
            Err(e) => Err(e),
        }
    }

    /// The width in pixels.
    pub fn width(&self) -> (r: u32)
        ensures
            r == self.value().0,
    {
        self.image.width()
    }

    /// The height in pixels.
    pub fn height(&self) -> (r: u32)
        ensures
            r == self.value().1,
    {
        self.image.height()
    }

    /// The kind of the pixels, see [`channels`].
    pub fn kind(&self) -> (r: u8)
        ensures
            r == self.value().2,
            r < 10,
    {
        proof {
            use_type_invariant(self);
        }
        kind_of(&self.image)
    }

    /// The picture scaled to `w` times `h` pixels.
    pub fn resize_exact(&self, w: u32, h: u32, sampling: Sampling) -> (r: Picture)
        requires
            0 < w < 256,
            0 < h < 256,
        ensures
            ({
                let (width, height, kind, samples) = self.value();
                r.value() == (
                    w,
                    h,
                    kind,
                    resized_samples(width, height, kind, samples, w, h, sampling),
                )
            }),
    {
        proof {
            use_type_invariant(self);
        }
        Picture { image: resize_image(&self.image, w, h, sampling) }
    }

    /// The brightness of each pixel.
    pub fn to_luma8(&self) -> (r: Vec<u8>)
        ensures
            r@ == luma_samples(self.value().2, self.value().3),
            r@.len() == self.value().0 * self.value().1,
    {
        proof {
            use_type_invariant(self);
        }
        luma_of(&self.image)
    }

    /// Each pixel as RGBA with 8 bits per channel.
    pub fn to_rgba8(&self) -> (r: Vec<u8>)
        ensures
            r@ == rgba_samples(self.value().2, self.value().3),
            r@.len() == 4 * self.value().0 * self.value().1,
    {
        proof {
            use_type_invariant(self);
        }
        rgba_of(&self.image)
    }

    /// The picture shrunk to fit a square of this side, or nothing if it's too
    /// large for that, see [`has_small_blocks`].
    pub fn thumbnail(&self, side: u32) -> (r: Option<Picture>)
        requires
            0 < side < 256,
        ensures
            ({
                let (width, height, kind, samples) = self.value();
                if has_small_blocks(width, height, kind, side) {
                    &&& r matches Some(t)
                    &&& t.value().2 == kind
                    &&& (t.value().0, t.value().1, t.value().3) == thumbnail_samples(
                        width,
                        height,
                        kind,
                        samples,
                        side,
                    )
                } else {
                    r is None
                }
            }),
    {
        proof {
            use_type_invariant(self);
        }
        if fits_thumbnail(self.image.width(), self.image.height(), kind_of(&self.image), side) {
            Some(Picture { image: thumbnail_image(&self.image, side) })
        } else {
            None
        }
    }

    /// Whether the pictures are the same, see [`look_same`]. What is not a
    /// number, in a picture in floating point, may differ.
    pub fn is_same(&self, other: &Picture) -> (r: bool)
        ensures
            r ==> look_same(self.value(), other.value()),
            self.value().2 < 8 && look_same(self.value(), other.value()) ==> r,
    {
        proof {
            use_type_invariant(self);
            use_type_invariant(other);
        }
        if self.width() != other.width() || self.height() != other.height() {
            return false;
        }
        if self.kind() == other.kind() {
            same_samples(&self.image, &other.image)
        } else {
            self.kind() <= 3 && other.kind() <= 3 && same_bytes(&self.to_rgba8(), &other.to_rgba8())
        }
    }

    /// The picture as a lossless WebP file.
    pub fn to_webp(&self, icc: Option<Vec<u8>>, exif: Option<Vec<u8>>) -> (r: Result<
        Vec<u8>,
        Refusal,
    >)
        requires
            is_shallow(self.value().2),
        ensures
            encoded_value(r) == webp_encoding(self.value(), bytes_of(icc), bytes_of(exif)),
    {
        proof {
            use_type_invariant(self);
        }
        if !fits_limit(&icc) {
            return Err(Refusal::Icc);
        }
        if !fits_limit(&exif) {
            return Err(Refusal::Exif);
        }
        write_webp(&self.image, icc, exif)
    }

    /// The picture as a PNG file at maximum compression.
    pub fn to_png(&self, icc: Option<Vec<u8>>, exif: Option<Vec<u8>>) -> (r: Result<
        Vec<u8>,
        Refusal,
    >)
        ensures
            ({
                let (width, height, kind, samples) = self.value();
                &&& encoded_value(r) == png_file(
                    width,
                    height,
                    kind,
                    samples,
                    bytes_of(icc),
                    bytes_of(exif),
                )
                &&& kind >= 8 ==> r is Err
            }),
    {
        proof {
            use_type_invariant(self);
        }
        write_png(&self.image, icc, exif)
    }
}

/// What writing a picture as a lossless WebP file comes to. A colour profile or
/// EXIF data that the file can't hold are refused.
pub open spec fn webp_encoding(
    picture: PictureValue,
    icc: Option<Seq<u8>>,
    exif: Option<Seq<u8>>,
) -> Result<Seq<u8>, (u8, Seq<char>)> {
    if !fits_webp(icc) {
        Err((0, seq![]))
    } else if !fits_webp(exif) {
        Err((1, seq![]))
    } else {
        webp_file(picture.0, picture.1, picture.2, picture.3, icc, exif)
    }
}

/// Decides [`fits_webp`].
pub fn fits_limit(metadata: &Option<Vec<u8>>) -> (r: bool)
    ensures
        r == fits_webp(bytes_of(*metadata)),
{
    match metadata {
        Some(m) => m.len() <= WEBP_METADATA_LIMIT,
        None => true,
    }
}

fn same_bytes(a: &Vec<u8>, b: &Vec<u8>) -> (r: bool)
    ensures
        r == (a@ == b@),
{
    if a.len() != b.len() {
        return false;
    }
    let mut i: usize = 0;
    while i < a.len()
        invariant
            i <= a@.len(),
            a@.len() == b@.len(),
            forall|k: int| 0 <= k < i ==> #[trigger] a@[k] == b@[k],
        decreases a@.len() - i,
    {
        if a[i] != b[i] {
            return false;
        }
        i = i + 1;
    }
    assert(a@ =~= b@);
    true
}

/// Decides [`has_small_blocks`].
pub fn fits_thumbnail(width: u32, height: u32, kind: u8, side: u32) -> (r: bool)
    requires
        0 < side < 256,
    ensures
        r == has_small_blocks(width, height, kind, side),
{
    if width == 0 || height == 0 {
        return true;
    }
    let (long, short): (u64, u64) = if width >= height {
        (width as u64, height as u64)
    } else {
        (height as u64, width as u64)
    };
    assert(2 * short * side <= 0x200_0000_0000) by (nonlinear_arith)
        requires
            short <= 0xffff_ffff,
            side < 256,
    ;
    let rounded: u64 = (2 * short * side as u64 + long - 1) / (2 * long);
    let n: u64 = if rounded < 1 {
        1
    } else {
        rounded
    };
    let clear: bool = (2 * short * side as u64 + long) % (2 * long) != 0;
    let a: u64 = count_side(long, side as u64, true);
    let b: u64 = count_side(short, n, clear);
    assert(a * b <= 0x1_0000_0000_0000_0000_0000) by (nonlinear_arith)
        requires
            a <= 0x2_0000_0000,
            b <= 0x2_0000_0000,
    ;
    let limit: u128 = if kind <= 3 {
        16_000_000
    } else if kind <= 7 {
        65_536
    } else {
        4_000_000_000
    };
    a as u128 * b as u128 <= limit
}

fn count_side(len: u64, n: u64, clear: bool) -> (r: u64)
    requires
        len <= 0xffff_ffff,
        0 < n,
    ensures
        r == block_side(len as int, n as int, clear),
        r <= 0x2_0000_0000,
{
    assert(len / n <= len) by (nonlinear_arith)
        requires
            0 < n,
    ;
    if clear && len % n == 0 && len <= 16_777_216 {
        len / n
    } else {
        len / n + 2 + len / 1_000_000
    }
}

/// When pictures are taken for the same: they have one size, and if their pixels are
/// of one kind, every sample agrees; 8-bit pictures of two kinds must agree as RGBA,
/// and deeper ones are then never the same. A picture is the same as itself.
pub proof fn law_same_pictures_agree_to_the_pixel(a: PictureValue, b: PictureValue)
    ensures
        look_same(a, a),
        look_same(a, b) ==> a.0 == b.0 && a.1 == b.1,
        look_same(a, b) && a.2 == b.2 ==> a.3 == b.3,
        look_same(a, b) && a.2 != b.2 ==> a.2 < 4 && b.2 < 4 && rgba_samples(a.2, a.3)
            == rgba_samples(b.2, b.3),
        a.0 == b.0 && a.1 == b.1 && a.2 != b.2 && a.2 < 4 && b.2 < 4 && rgba_samples(a.2, a.3)
            == rgba_samples(b.2, b.3) ==> look_same(a, b),
        look_same(a, b) == look_same(b, a),
{
}

/// Colour profiles and EXIF data that a WebP file can't hold are refused, in that
/// order, and nothing else is before the encoder is asked.
pub proof fn law_webp_refuses_long_metadata(
    picture: PictureValue,
    icc: Option<Seq<u8>>,
    exif: Option<Seq<u8>>,
)
    ensures
        ({
            let limit: int = 1_073_741_823;
            let long_icc = icc matches Some(m) && m.len() > limit;
            let long_exif = exif matches Some(m) && m.len() > limit;
            let r = webp_encoding(picture, icc, exif);
            &&& long_icc ==> r is Err
            &&& long_exif ==> r is Err
            &&& !long_icc && !long_exif ==> r == webp_file(
                picture.0,
                picture.1,
                picture.2,
                picture.3,
                icc,
                exif,
            )
        }),
{
}

/// How many samples a pixel has: one if it is grey, two with alpha, three if it is
/// of colour and four with alpha, in 8 bits, 16 bits and floating point.
pub proof fn law_samples_of_a_pixel()
    ensures
        channels(0) == 1 && channels(1) == 2 && channels(2) == 3 && channels(3) == 4,
        channels(4) == 1 && channels(5) == 2 && channels(6) == 3 && channels(7) == 4,
        channels(8) == 3 && channels(9) == 4,
{
}

} // verus!
