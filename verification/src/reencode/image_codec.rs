//! Re-encoding images.

use crate::paths;
use crate::picture::{self, Picture, PictureValue, Refusal};
use crate::scanner::similarity;
use crate::text;
use vstd::prelude::*;

verus! {

/// What lossless image re-encoding should produce.
#[derive(Clone, Copy, Debug, PartialEq, Eq, Structural)]
pub enum ImageTarget {
    /// Lossless WebP: usually the smallest. Changes the extension to `.webp`.
    LosslessWebp,
    /// PNG at maximum compression. Keeps `.png` files `.png`.
    OptimizedPng,
}

impl ImageTarget {
    /// How the target is shown.
    pub fn label(self) -> (r: &'static str)
        ensures
            r@ == match self {
                ImageTarget::LosslessWebp => "Lossless WebP"@,
                ImageTarget::OptimizedPng => "Max-compression PNG"@,
            },
    {
        match self {
            ImageTarget::LosslessWebp => "Lossless WebP",
            ImageTarget::OptimizedPng => "Max-compression PNG",
        }
    }
}

/// Extensions of image formats stored losslessly, the only ones a lossless
/// re-encode can shrink. JPEG and lossy WebP aren't here: decoding and
/// re-encoding them losslessly always makes them bigger.
pub open spec fn is_lossless_extension(e: Seq<char>) -> bool {
    ||| e == "png"@ || e == "bmp"@ || e == "tif"@ || e == "tiff"@ || e == "tga"@
    ||| e == "ppm"@ || e == "pgm"@ || e == "pbm"@ || e == "pnm"@ || e == "qoi"@
}

/// Whether the path's extension is that of a losslessly stored image.
pub open spec fn is_reencodable(path: Seq<char>) -> bool {
    paths::lower_extension(path) matches Some(e) && is_lossless_extension(e)
}

/// Decides [`is_reencodable`].
pub fn is_reencodable_image(path: &str) -> (r: bool)
    ensures
        r == is_reencodable(path@),
{
    match paths::lower_extension_of(path) {
        Some(ext) => {
            let e: &str = ext.as_str();
            text::text_eq(e, "png") || text::text_eq(e, "bmp") || text::text_eq(e, "tif")
                || text::text_eq(e, "tiff") || text::text_eq(e, "tga") || text::text_eq(e, "ppm")
                || text::text_eq(e, "pgm") || text::text_eq(e, "pbm") || text::text_eq(e, "pnm")
                || text::text_eq(e, "qoi")
        },
        None => false,
    }
}

/// Whether a picture becomes a WebP file. WebP lossless only stores 8 bits
/// per channel; deeper images stay PNG.
pub fn uses_webp(color: u8, target: ImageTarget) -> (r: bool)
    ensures
        r == (target is LosslessWebp && picture::is_shallow(color)),
{
    target == ImageTarget::LosslessWebp && color <= 3
}

/// What a refusal is reported as.
pub open spec fn refusal_text(kind: u8, message: Seq<char>) -> Seq<char> {
    if kind == 0 {
        "its colour profile can't be kept in the new format"@
    } else if kind == 1 {
        "its EXIF data can't be kept in the new format"@
    } else {
        message
    }
}

/// Says why a picture was not encoded.
pub fn describe_refusal(refusal: Refusal) -> (r: String)
    ensures
        picture::encoded_value(Err(refusal)) matches Err((kind, message)) && r@ == refusal_text(
            kind,
            message,
        ),
{
    match refusal {
        Refusal::Icc => "its colour profile can't be kept in the new format".to_owned(),
        Refusal::Exif => "its EXIF data can't be kept in the new format".to_owned(),
        Refusal::Encoding(e) => e,
    }
}

/// Whether two pictures are the same to the pixel, see [`picture::look_same`].
/// What is not a number, in a picture in floating point, may differ.
pub fn same_pixels(a: &Picture, b: &Picture) -> (r: bool)
    ensures
        r ==> picture::look_same(a.value(), b.value()),
        a.value().2 < 8 && picture::look_same(a.value(), b.value()) ==> r,
{
    a.is_same(b)
}

/// What is reported of a picture that does not come back as it was.
pub open spec fn mismatch_text() -> Seq<char> {
    "re-encoded pixels didn't match the original; left untouched"@
}

/// The extension of the new file.
pub open spec fn new_extension(webp: bool) -> Seq<char> {
    if webp {
        "webp"@
    } else {
        "png"@
    }
}

/// Accepts the new bytes of a picture if they decode to the same pixels again.
pub fn accept_reencoded(
    original: &Picture,
    bytes: Vec<u8>,
    webp: bool,
    back: Result<Picture, String>,
) -> (r: Result<(Vec<u8>, &'static str), String>)
    ensures
        match (back, r) {
            (Err(e), _) => r == Err::<(Vec<u8>, &'static str), String>(e),
            (Ok(p), Ok((b, ext))) => {
                &&& b == bytes
                &&& ext@ == new_extension(webp)
                &&& picture::look_same(original.value(), p.value())
            },
            (Ok(p), Err(m)) => {
                &&& m@ == mismatch_text()
                &&& original.value().2 < 8 ==> !picture::look_same(original.value(), p.value())
            },
        },
{
    match back {
        Err(e) => Err(e),
        Ok(p) => if same_pixels(original, &p) {
            if webp {
                Ok((bytes, "webp"))
            } else {
                Ok((bytes, "png"))
            }
        } else {
            Err("re-encoded pixels didn't match the original; left untouched".to_owned())
        },
    }
}

/// What re-encoding a picture comes to.
pub open spec fn reencoded(
    picture: PictureValue,
    icc: Option<Seq<u8>>,
    exif: Option<Seq<u8>>,
    webp: bool,
) -> Result<(Seq<u8>, Seq<char>), Seq<char>> {
    let encoded = if webp {
        picture::webp_encoding(picture, icc, exif)
    } else {
        picture::png_file(picture.0, picture.1, picture.2, picture.3, icc, exif)
    };
    match encoded {
        Err((kind, message)) => Err(refusal_text(kind, message)),
        Ok(bytes) => match picture::loaded_picture(new_extension(webp), bytes) {
            Err(e) => Err(e),
            Ok(back) => if picture::look_same(picture, back) {
                Ok((bytes, new_extension(webp)))
            } else {
                Err(mismatch_text())
            },
        },
    }
}

/// The extension of a path, if there is something in it.
pub open spec fn filled_extension(path: Seq<char>) -> Option<Seq<char>> {
    match paths::extension(path) {
        Some(e) => if e.len() > 0 {
            Some(e)
        } else {
            None
        },
        None => None,
    }
}

/// The extension of the format that an image file is read in: the one that its
/// first bytes tell, or else its own. Otherwise why it isn't even decoded.
pub open spec fn file_format(path: Seq<char>, content: Seq<u8>) -> Result<Seq<char>, Seq<char>> {
    match (picture::guessed_format(content), filled_extension(path)) {
        (Some(format), _) => Ok(format),
        (None, Some(e)) if picture::names_format(e) => Ok(e),
        (None, e) => Err(picture::unknown_format_text(e)),
    }
}

/// Finds [`file_format`].
pub fn find_format(path: &str, content: &[u8]) -> (r: Result<String, String>)
    ensures
        match r {
            Ok(e) => file_format(path@, content@) == Ok::<Seq<char>, Seq<char>>(e@)
                && picture::names_format(e@),
            Err(e) => file_format(path@, content@) == Err::<Seq<char>, Seq<char>>(e@),
        },
{
    match picture::guess_format(content) {
        Some(format) => Ok(format.to_owned()),
        None => match paths::extension_of(path) {
            Some(e) => if e.as_str().unicode_len() == 0 {
                Err(picture::unknown_format(None))
            } else if similarity::has_image_format(e.as_str()) {
                Ok(e)
            } else {
                Err(picture::unknown_format(Some(e.as_str())))
            },
            None => Err(picture::unknown_format(None)),
        },
    }
}

/// What re-encoding an image file comes to: the new bytes and their extension,
/// or why it's left alone.
pub open spec fn reencoded_file(path: Seq<char>, content: Seq<u8>, target: ImageTarget) -> Result<
    (Seq<u8>, Seq<char>),
    Seq<char>,
> {
    match file_format(path, content) {
        Err(e) => Err(e),
        Ok(format) => match picture::decoded_picture(format, content) {
            Err(e) => Err(e),
            Ok(picture) => reencoded(
                picture,
                picture::colour_profile(format, content),
                picture::exif_data(format, content),
                target is LosslessWebp && picture::is_shallow(picture.2),
            ),
        },
    }
}

/// Whether this is what re-encoding an image file comes to.
pub open spec fn is_reencoded(
    path: Seq<char>,
    content: Seq<u8>,
    target: ImageTarget,
    r: Result<(Vec<u8>, &'static str), String>,
) -> bool {
    match reencoded_file(path, content, target) {
        Ok((b, e)) => r matches Ok((bytes, ext)) && bytes@ == b && ext@ == e,
        Err(e) => r matches Err(m) && m@ == e,
    }
}

/// Re-encodes the image file at `path` with the given content losslessly,
/// returning the new bytes and their extension. The result is decoded again
/// and compared pixel for pixel with the original before being returned; ICC
/// profiles and EXIF data are carried over, and a file whose metadata can't be
/// kept is refused rather than silently stripped.
pub fn reencode_image(path: &str, content: &[u8], target: ImageTarget) -> (r: Result<
    (Vec<u8>, &'static str),
    String,
>)
    ensures
        is_reencoded(path@, content@, target, r),
{
    let format: String = match find_format(path, content) {
        Ok(f) => f,
        Err(e) => return Err(e),
    };
    let picture: Picture = match Picture::decode(format.as_str(), content) {
        Ok(p) => p,
        Err(e) => return Err(e),
    };
    let icc: Option<Vec<u8>> = picture::read_profile(format.as_str(), content);
    let exif: Option<Vec<u8>> = picture::read_exif(format.as_str(), content);
    let webp: bool = uses_webp(picture.kind(), target);
    let encoded: Result<Vec<u8>, Refusal> = if webp {
        picture.to_webp(icc, exif)
    } else {
        picture.to_png(icc, exif)
    };
    match encoded {
        Err(refusal) => Err(describe_refusal(refusal)),
        Ok(bytes) => {
            proof {
                lemma_new_extensions();
            }
            let back = if webp {
                Picture::load("webp", bytes.as_slice())
            } else {
                Picture::load("png", bytes.as_slice())
            };
            accept_reencoded(&picture, bytes, webp, back)
        },
    }
}

proof fn lemma_new_extensions()
    ensures
        picture::names_format("webp"@),
        picture::names_format("png"@),
        "webp"@ != "png"@,
{
    reveal_strlit("webp");
    reveal_strlit("png");
    assert("webp"@.len() == 4 && "png"@.len() == 3);
    assert(text::ascii_lower("webp"@) =~= "webp"@);
    assert(text::ascii_lower("png"@) =~= "png"@);
}

/// What a re-encoded file is. If it is asked for as WebP and has at most 8 bits
/// per channel it is a WebP file, otherwise a PNG file, of the picture as it was
/// decoded and with its colour profile and its EXIF data; and loaded again it
/// looks the same.
pub proof fn law_reencoding_keeps_everything(
    path: Seq<char>,
    content: Seq<u8>,
    target: ImageTarget,
)
    requires
        reencoded_file(path, content, target) is Ok,
    ensures
        ({
            let (bytes, ext) = reencoded_file(path, content, target)->Ok_0;
            &&& file_format(path, content) matches Ok(format)
            &&& picture::decoded_picture(format, content) matches Ok(p)
            &&& picture::loaded_picture(ext, bytes) matches Ok(back)
            &&& picture::look_same(p, back)
            &&& if target is LosslessWebp && p.2 <= 3 {
                ext == "webp"@ && picture::webp_encoding(
                    p,
                    picture::colour_profile(format, content),
                    picture::exif_data(format, content),
                ) == Ok::<Seq<u8>, (u8, Seq<char>)>(bytes)
            } else {
                ext == "png"@ && picture::png_file(
                    p.0,
                    p.1,
                    p.2,
                    p.3,
                    picture::colour_profile(format, content),
                    picture::exif_data(format, content),
                ) == Ok::<Seq<u8>, (u8, Seq<char>)>(bytes)
            }
        }),
{
}

/// The format an image is read in is the one that its content tells, or else
/// the one that its extension names.
pub proof fn law_content_tells_the_format(path: Seq<char>, content: Seq<u8>)
    ensures
        picture::guessed_format(content) matches Some(f) ==> file_format(path, content) == Ok::<
            Seq<char>,
            Seq<char>,
        >(f),
        picture::guessed_format(content) is None ==> (file_format(path, content) is Ok <==> (
        paths::extension(path) matches Some(e) && e.len() > 0 && picture::names_format(e))),
        picture::guessed_format(content) is None && file_format(path, content) is Ok ==> file_format(
            path,
            content,
        )->Ok_0 == paths::extension(path)->0,
{
}

/// A re-encoded file shows the same picture: its bytes decode to the size and
/// the samples that the original file decodes to, or to the same RGBA if both
/// have 8 bits per channel. A picture with 16 bits per channel becomes PNG,
/// whatever is asked for.
pub proof fn law_reencoding_is_lossless(path: Seq<char>, content: Seq<u8>, target: ImageTarget)
    requires
        reencoded_file(path, content, target) is Ok,
    ensures
        ({
            let (bytes, ext) = reencoded_file(path, content, target)->Ok_0;
            let webp = ext == new_extension(true);
            &&& file_format(path, content) matches Ok(format)
            &&& picture::decoded_picture(format, content) matches Ok(picture)
            &&& picture::loaded_picture(ext, bytes) matches Ok(back)
            &&& picture::look_same(picture, back)
            &&& webp == (target is LosslessWebp && picture::is_shallow(picture.2))
            &&& !webp ==> ext == new_extension(false)
        }),
{
    lemma_new_extensions();
}

/// An image that can be read, encoded and read back as it was is re-encoded. One
/// that does not come back as it was is left alone, as is one that can't be read or
/// encoded, for the reason that was given.
pub proof fn law_images_that_come_back_are_reencoded(
    path: Seq<char>,
    content: Seq<u8>,
    target: ImageTarget,
)
    ensures
        file_format(path, content) matches Err(e) ==> reencoded_file(path, content, target) == Err::<
            (Seq<u8>, Seq<char>),
            Seq<char>,
        >(e),
        file_format(path, content) matches Ok(format) ==> {
            &&& picture::decoded_picture(format, content) matches Err(e) ==> reencoded_file(
                path,
                content,
                target,
            ) == Err::<(Seq<u8>, Seq<char>), Seq<char>>(e)
            &&& picture::decoded_picture(format, content) matches Ok(p) ==> {
                let webp = target is LosslessWebp && p.2 <= 3;
                let icc = picture::colour_profile(format, content);
                let exif = picture::exif_data(format, content);
                let encoded = if webp {
                    picture::webp_encoding(p, icc, exif)
                } else {
                    picture::png_file(p.0, p.1, p.2, p.3, icc, exif)
                };
                let ext = if webp {
                    "webp"@
                } else {
                    "png"@
                };
                let r = reencoded_file(path, content, target);
                &&& encoded matches Ok(bytes) ==> (picture::loaded_picture(ext, bytes) matches Ok(
                    back,
                ) ==> {
                    &&& picture::look_same(p, back) ==> r == Ok::<
                        (Seq<u8>, Seq<char>),
                        Seq<char>,
                    >((bytes, ext))
                    &&& !picture::look_same(p, back) ==> r == Err::<
                        (Seq<u8>, Seq<char>),
                        Seq<char>,
                    >("re-encoded pixels didn't match the original; left untouched"@)
                })
                &&& encoded matches Ok(bytes) ==> (picture::loaded_picture(ext, bytes) is Err
                    ==> r is Err)
                &&& encoded matches Err((kind, message)) ==> r == Err::<
                    (Seq<u8>, Seq<char>),
                    Seq<char>,
                >(
                    if kind == 0 {
                        "its colour profile can't be kept in the new format"@
                    } else if kind == 1 {
                        "its EXIF data can't be kept in the new format"@
                    } else {
                        message
                    },
                )
            }
        },
{
}

} // verus!
