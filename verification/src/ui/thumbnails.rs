//! Thumbnails, and which of them have been asked for.

use crate::paths;
use crate::picture::{self, Picture, PictureValue};
use crate::scanner::similarity;
use crate::text;
use vstd::prelude::*;

verus! {

/// The side of the square that a thumbnail fits into.
pub const THUMB_SIZE: u32 = 128;

/// A thumbnail: its width and height, and its pixels as RGBA with one byte per
/// channel.
#[derive(Debug, PartialEq)]
pub struct DecodedThumb {
    pub width: u32,
    pub height: u32,
    pub rgba: Vec<u8>,
}

/// The width, height and pixels of a thumbnail.
pub open spec fn thumb_values(r: Option<DecodedThumb>) -> Option<(u32, u32, Seq<u8>)> {
    match r {
        Some(t) => Some((t.width, t.height, t.rgba@)),
        None => None,
    }
}

/// The thumbnail of a picture. Nothing if it's too large for one.
pub open spec fn shrunk(p: PictureValue) -> Option<(u32, u32, Seq<u8>)> {
    if picture::has_small_blocks(p.0, p.1, p.2, THUMB_SIZE) {
        let (width, height, samples) = picture::thumbnail_samples(p.0, p.1, p.2, p.3, THUMB_SIZE);
        Some((width, height, picture::rgba_samples(p.2, samples)))
    } else {
        None
    }
}

/// Makes the thumbnail of a picture.
pub fn shrink_picture(p: &Picture) -> (r: Option<DecodedThumb>)
    ensures
        thumb_values(r) == shrunk(p.value()),
        r matches Some(t) ==> t.rgba@.len() == 4 * t.width * t.height,
{
    match p.thumbnail(THUMB_SIZE) {
        Some(t) => Some(DecodedThumb { width: t.width(), height: t.height(), rgba: t.to_rgba8() }),
        None => None,
    }
}

/// The thumbnail of a file with this path and content. Nothing if the path has
/// no extension of images, if the content can't be decoded, and if the picture
/// is too large.
pub open spec fn thumbnail_of(path: Seq<char>, content: Seq<u8>) -> Option<(u32, u32, Seq<u8>)> {
    match paths::extension(path) {
        Some(ext) if picture::names_format(ext) => match picture::loaded_picture(ext, content) {
            Ok(p) => shrunk(p),
            Err(_) => None,
        },
        _ => None,
    }
}

/// Decodes the thumbnail of a file.
pub fn decode_thumbnail(path: &str, content: &[u8]) -> (r: Option<DecodedThumb>)
    ensures
        thumb_values(r) == thumbnail_of(path@, content@),
        r matches Some(t) ==> t.rgba@.len() == 4 * t.width * t.height,
{
    match paths::extension_of(path) {
        Some(ext) => if similarity::has_image_format(ext.as_str()) {
            match Picture::load(ext.as_str(), content) {
                Ok(p) => shrink_picture(&p),
                Err(_) => None,
            }
        } else {
            None
        },
        None => None,
    }
}

/// Where a thumbnail stands.
#[derive(Clone, Copy, Debug, PartialEq, Eq, Structural)]
pub enum ThumbState {
    Loading,
    Ready,
    Failed,
    /// Extension isn't a decodable image format: a generic icon is to be drawn.
    Unsupported,
}

/// What has been asked for and what came of it, so that nothing is decoded
/// twice. Only asked for entries actually drawn on screen, so scrolling a grid
/// never queues more than what's visible.
#[derive(Debug)]
pub struct ThumbnailCache {
    /// By the identities of the paths.
    pub entries: Vec<(String, ThumbState)>,
}

/// What is known of a path.
pub open spec fn known(entries: Seq<(String, ThumbState)>, id: Seq<char>) -> Option<ThumbState>
    decreases entries.len(),
{
    if entries.len() == 0 {
        None
    } else if entries.last().0@ == id {
        Some(entries.last().1)
    } else {
        known(entries.drop_last(), id)
    }
}

impl Default for ThumbnailCache {
    fn default() -> (r: Self)
        ensures
            r.entries@.len() == 0,
    {
        ThumbnailCache { entries: Vec::new() }
    }
}

impl ThumbnailCache {
    fn find(&self, id: &str) -> (r: Option<ThumbState>)
        ensures
            r == known(self.entries@, id@),
    {
        let mut i: usize = self.entries.len();
        assert(self.entries@.take(i as int) =~= self.entries@);
        while i > 0
            invariant
                i <= self.entries@.len(),
                known(self.entries@, id@) == known(self.entries@.take(i as int), id@),
            decreases i,
        {
            assert(self.entries@.take(i as int).drop_last() =~= self.entries@.take(i - 1));
            i = i - 1;
            if text::text_eq(self.entries[i].0.as_str(), id) {
                return Some(self.entries[i].1);
            }
        }
        None
    }

    /// Gives the current thumbnail state of `path`, and whether it is to be
    /// decoded now: on the first request for an image.
    pub fn get_or_request(&mut self, path: &str) -> (r: (ThumbState, bool))
        ensures
            r.1 == (known(old(self).entries@, paths::path_id(path@)) is None
                && similarity::is_image(path@)),
            match known(old(self).entries@, paths::path_id(path@)) {
                Some(s) => r.0 == s && *final(self) == *old(self),
                None => {
                    &&& r.0 == (if similarity::is_image(path@) {
                        ThumbState::Loading
                    } else {
                        ThumbState::Unsupported
                    })
                    &&& forall|id: Seq<char>| #[trigger]
                        known(final(self).entries@, id) == (if id == paths::path_id(path@) {
                            Some(r.0)
                        } else {
                            known(old(self).entries@, id)
                        })
                },
            },
    {
        let id: String = paths::id_of(path);
        if let Some(state) = self.find(id.as_str()) {
            return (state, false);
        }
        let image: bool = similarity::is_image_path(path);
        let state: ThumbState = if image {
            ThumbState::Loading
        } else {
            ThumbState::Unsupported
        };
        let ghost before = self.entries@;
        self.entries.push((id, state));
        assert(self.entries@.drop_last() =~= before);
        (state, image)
    }

    /// Takes note of whether a thumbnail was decoded.
    pub fn take_decoded(&mut self, path: &str, decoded: bool)
        ensures
            forall|id: Seq<char>| #[trigger]
                known(final(self).entries@, id) == (if id == paths::path_id(path@) {
                    Some(
                        if decoded {
                            ThumbState::Ready
                        } else {
                            ThumbState::Failed
                        },
                    )
                } else {
                    known(old(self).entries@, id)
                }),
    {
        let id: String = paths::id_of(path);
        let state: ThumbState = if decoded {
            ThumbState::Ready
        } else {
            ThumbState::Failed
        };
        let ghost before = self.entries@;
        self.entries.push((id, state));
        assert(self.entries@.drop_last() =~= before);
    }
}

/// The thumbnail of an image file: its picture, as its extension says it is stored,
/// shrunk into a square of 128 pixels, in RGBA. A file without an extension of
/// images has none, nor has one that can't be decoded.
pub proof fn law_thumbnails_show_the_picture(path: Seq<char>, content: Seq<u8>)
    ensures
        thumbnail_of(path, content) is Some <==> (paths::extension(path) matches Some(ext)
            && picture::names_format(ext) && (picture::loaded_picture(ext, content) matches Ok(p)
            && picture::has_small_blocks(p.0, p.1, p.2, 128))),
        thumbnail_of(path, content) matches Some((width, height, rgba)) ==> {
            let ext = paths::extension(path)->0;
            let p = picture::loaded_picture(ext, content)->Ok_0;
            let (w, h, samples) = picture::thumbnail_samples(p.0, p.1, p.2, p.3, 128);
            width == w && height == h && rgba == picture::rgba_samples(p.2, samples)
        },
{
}

/// What is known of a path is what was noted of it last.
pub proof fn law_the_last_note_counts(
    entries: Seq<(String, ThumbState)>,
    e: (String, ThumbState),
    id: Seq<char>,
)
    ensures
        known(Seq::<(String, ThumbState)>::empty(), id) is None,
        known(entries.push(e), id) == (if e.0@ == id {
            Some(e.1)
        } else {
            known(entries, id)
        }),
{
    assert(entries.push(e).drop_last() =~= entries);
}

} // verus!
