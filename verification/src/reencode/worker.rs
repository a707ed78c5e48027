//! Re-encoding file by file.
//!
//! Each file is encoded to a hidden temp file beside it; the result is kept
//! only if it's smaller, and swapped in (see [`OriginalHandling`]). Nothing is
//! replaced until the new file is complete, verified (images are compared
//! pixel by pixel) and on disk. Reading, writing and running ffmpeg is up to
//! the caller; what is done with each file is decided here.

use super::image_codec::{self, ImageTarget};
use super::video_codec::{self, PreparedVideo, VideoMode};
use crate::config;
use crate::drive_fill::measure;
use crate::paths;
use crate::scanner::similarity;
use crate::text;
use vstd::prelude::*;

verus! {

/// What happens to an original once a smaller re-encode exists.
#[derive(Clone, Copy, Debug, PartialEq, Eq, Structural)]
pub enum OriginalHandling {
    /// Move the original to the Recycle Bin; the new file takes its place.
    Trash,
    /// Keep the original and write the new file next to it.
    Keep,
}

/// What is to be re-encoded, and how.
#[derive(Debug)]
pub struct ReencodeOptions {
    pub folders: Vec<String>,
    pub images: Option<ImageTarget>,
    pub videos: VideoMode,
    pub originals: OriginalHandling,
}

/// What re-encoding a file has come to.
#[derive(Debug, PartialEq)]
pub enum Outcome {
    /// Replaced/added a smaller file at `new_path`.
    Saved { new_path: String, new_size: u64 },
    Skipped(String),
    Failed(String),
}

/// What became of a file.
#[derive(Debug, PartialEq)]
pub struct FileResult {
    pub path: String,
    pub size: u64,
    pub outcome: Outcome,
}

/// What a run reports.
#[derive(Debug, PartialEq)]
pub enum ReencodeEvent {
    /// Candidates found; sent once before any encoding starts.
    Discovered { files: usize, bytes: u64 },
    Started { path: String, size: u64 },
    /// How much of the current (video) file is done, in microseconds.
    FileProgress { done: u64, total: u64 },
    FileDone(FileResult),
    Finished,
}

/// What temp files have in their names.
pub open spec fn temp_marker() -> Seq<char> {
    ".dupe-rs-tmp"@
}

/// Whether a path is that of a temp file.
pub open spec fn names_temp(path: Seq<char>) -> bool {
    paths::file_name(path) matches Some(n) && config::has_text(n, temp_marker())
}

/// Decides [`names_temp`].
pub fn is_temp(path: &str) -> (r: bool)
    ensures
        r == names_temp(path@),
{
    match paths::file_name_of(path) {
        Some(n) => config::contains_text(
            text::to_chars(n.as_str()).as_slice(),
            text::to_chars(".dupe-rs-tmp").as_slice(),
        ),
        None => false,
    }
}

/// Whether a file is one to re-encode.
pub open spec fn wants(images: Option<ImageTarget>, videos: VideoMode, path: Seq<char>) -> bool {
    &&& !names_temp(path)
    &&& (images is Some && image_codec::is_reencodable(path)) || (!(videos is Skip)
        && similarity::is_video(path))
}

/// Decides [`wants`].
pub fn is_wanted(options: &ReencodeOptions, path: &str) -> (r: bool)
    ensures
        r == wants(options.images, options.videos, path@),
{
    !is_temp(path) && ((options.images.is_some() && image_codec::is_reencodable_image(path)) || (
    options.videos != VideoMode::Skip && video_codec::is_video(path)))
}

/// An entry met while walking a folder: a file has a size, if it can be read.
#[derive(Debug, PartialEq)]
pub struct Entry {
    pub path: String,
    pub is_file: bool,
    pub size: Option<u64>,
}

/// The files to re-encode among the entries, with their sizes.
pub open spec fn wanted_files(
    entries: Seq<Entry>,
    images: Option<ImageTarget>,
    videos: VideoMode,
) -> Seq<(String, u64)>
    decreases entries.len(),
{
    if entries.len() == 0 {
        seq![]
    } else {
        let before = wanted_files(entries.drop_last(), images, videos);
        let e = entries.last();
        if e.is_file && e.size is Some && wants(images, videos, e.path@) {
            before.push((e.path, e.size->0))
        } else {
            before
        }
    }
}

/// The sizes of the files.
pub open spec fn sizes(files: Seq<(String, u64)>) -> Seq<u64> {
    files.map_values(|f: (String, u64)| f.1)
}

/// Picks the files to re-encode, and says how many there are and how large
/// they are together.
pub fn discover(options: &ReencodeOptions, entries: Vec<Entry>) -> (r: (
    Vec<(String, u64)>,
    ReencodeEvent,
))
    ensures
        r.0@ == wanted_files(entries@, options.images, options.videos),
        r.1 matches ReencodeEvent::Discovered { files, bytes } && files == r.0@.len() && bytes
            == measure::capped(measure::total(sizes(r.0@))),
{
    let ghost all = entries@;
    let mut files: Vec<(String, u64)> = Vec::new();
    let mut bytes: u64 = 0;
    for e in it: entries
        invariant
            it.seq() == all,
            files@ == wanted_files(
                all.take(it.index() as int),
                options.images,
                options.videos,
            ),
            bytes == measure::capped(measure::total(sizes(files@))),
    {
        assert(all.take(it.index() + 1).drop_last() =~= all.take(it.index() as int));
        if e.is_file && is_wanted(options, e.path.as_str()) {
            if let Some(size) = e.size {
                let ghost before = files@;
                files.push((e.path, size));
                bytes = bytes.saturating_add(size);
                assert(sizes(files@).drop_last() =~= sizes(before));
            }
        }
    }
    assert(all.take(all.len() as int) =~= all);
    let n: usize = files.len();
    (files, ReencodeEvent::Discovered { files: n, bytes })
}

/// The folder a file lies in.
pub open spec fn folder_of(path: Seq<char>) -> Seq<char> {
    match paths::parent(path) {
        Some(p) => p,
        None => "."@,
    }
}

/// A file beside another.
pub open spec fn beside(path: Seq<char>, name: Seq<char>) -> Seq<char> {
    paths::join(folder_of(path), name)
}

fn place_beside(path: &str, name: &str) -> (r: String)
    ensures
        r@ == beside(path@, name@),
{
    let dir: String = match paths::parent_of(path) {
        Some(p) => p,
        None => ".".to_owned(),
    };
    paths::join_paths(dir.as_str(), name)
}

/// The temp file beside a file.
pub open spec fn temp_path(path: Seq<char>, stem: Seq<char>, ext: Seq<char>) -> Seq<char> {
    beside(path, "."@ + stem + temp_marker() + "."@ + ext)
}

/// Computes [`temp_path`].
pub fn temp_place(path: &str, stem: &str, ext: &str) -> (r: String)
    ensures
        r@ == temp_path(path@, stem@, ext@),
{
    let name: String = ".".to_owned().concat(stem).concat(".dupe-rs-tmp").concat(".").concat(ext);
    place_beside(path, name.as_str())
}

/// What is to be done with a file.
#[derive(Debug, PartialEq)]
pub enum FileStep {
    /// Nothing more.
    Done(Outcome),
    /// Write these bytes to the temp file.
    Write { stem: String, temp: String, bytes: Vec<u8>, ext: &'static str },
    /// Have ffmpeg write the temp file.
    Encode { stem: String, temp: String, video: PreparedVideo },
}

/// The new bytes of an image and their extension, or why it's left alone.
pub open spec fn reencoded_value(r: Result<(Vec<u8>, &'static str), String>) -> Result<
    (Seq<u8>, Seq<char>),
    Seq<char>,
> {
    match r {
        Ok((b, e)) => Ok((b@, e@)),
        Err(e) => Err(e@),
    }
}

/// What follows from re-encoding an image.
pub open spec fn follows_image(
    path: Seq<char>,
    size: u64,
    stem: Seq<char>,
    reencoded: Result<(Seq<u8>, Seq<char>), Seq<char>>,
    step: FileStep,
) -> bool {
    match reencoded {
        Err(e) => step matches FileStep::Done(Outcome::Skipped(m)) && m@ == e,
        Ok((b, e)) => if b.len() >= size {
            step matches FileStep::Done(Outcome::Skipped(m)) && m@
                == "already as small as it gets"@
        } else {
            step matches FileStep::Write { stem: s, temp, bytes, ext } && s@ == stem && temp@
                == temp_path(path, stem, e) && bytes@ == b && ext@ == e
        },
    }
}

/// Decides what follows from re-encoding an image: what can't be re-encoded,
/// or does not get smaller, is skipped.
pub fn after_image(
    path: &str,
    size: u64,
    stem: String,
    reencoded: Result<(Vec<u8>, &'static str), String>,
) -> (r: FileStep)
    ensures
        follows_image(path@, size, stem@, reencoded_value(reencoded), r),
{
    match reencoded {
        Err(e) => FileStep::Done(Outcome::Skipped(e)),
        Ok((bytes, ext)) => if bytes.len() as u64 >= size {
            FileStep::Done(Outcome::Skipped("already as small as it gets".to_owned()))
        } else {
            let temp: String = temp_place(path, stem.as_str(), ext);
            FileStep::Write { stem, temp, bytes, ext }
        },
    }
}

/// Decides what is to be done with an image file, given its content or why it
/// can't be read.
pub fn process_image(
    path: &str,
    size: u64,
    target: Option<ImageTarget>,
    content: Result<Vec<u8>, String>,
) -> (r: FileStep)
    ensures
        match (paths::file_stem(path@), target, content) {
            (None, _, _) => r matches FileStep::Done(Outcome::Skipped(m)) && m@
                == "no file name"@,
            (Some(_), None, _) => r matches FileStep::Done(Outcome::Skipped(m)) && m@
                == "images are skipped"@,
            (Some(_), Some(_), Err(e)) => r == FileStep::Done(Outcome::Skipped(e)),
            (Some(stem), Some(t), Ok(bytes)) => follows_image(
                path@,
                size,
                stem,
                image_codec::reencoded_file(path@, bytes@, t),
                r,
            ),
        },
{
    let stem: String = match paths::file_stem_of(path) {
        Some(s) => s,
        None => return FileStep::Done(Outcome::Skipped("no file name".to_owned())),
    };
    let target: ImageTarget = match target {
        Some(t) => t,
        None => return FileStep::Done(Outcome::Skipped("images are skipped".to_owned())),
    };
    match content {
        Err(e) => FileStep::Done(Outcome::Skipped(e)),
        Ok(bytes) => {
            let reencoded = image_codec::reencode_image(path, bytes.as_slice(), target);
            after_image(path, size, stem, reencoded)
        },
    }
}

/// Decides what is to be done with a video file, given what becomes of it or
/// why it's skipped.
pub fn process_video(path: &str, prepared: Result<PreparedVideo, String>) -> (r: FileStep)
    ensures
        match (paths::file_stem(path@), prepared) {
            (None, _) => r matches FileStep::Done(Outcome::Skipped(m)) && m@ == "no file name"@,
            (Some(_), Err(e)) => r == FileStep::Done(Outcome::Skipped(e)),
            (Some(s), Ok(v)) => r matches FileStep::Encode { stem, temp, video } && stem@ == s
                && temp@ == temp_path(path@, s, v.ext@) && video == v,
        },
{
    let stem: String = match paths::file_stem_of(path) {
        Some(s) => s,
        None => return FileStep::Done(Outcome::Skipped("no file name".to_owned())),
    };
    match prepared {
        Err(e) => FileStep::Done(Outcome::Skipped(e)),
        Ok(video) => {
            let temp: String = temp_place(path, stem.as_str(), video.ext);
            FileStep::Encode { stem, temp, video }
        },
    }
}

/// Where the new file goes: it takes the original's place if that goes to the
/// trash and has the same extension, and otherwise gets a name of its own.
pub open spec fn new_path(
    path: Seq<char>,
    stem: Seq<char>,
    ext: Seq<char>,
    originals: OriginalHandling,
) -> Seq<char> {
    let same_ext = paths::extension(path) matches Some(e) && text::ascii_lower(e)
        == text::ascii_lower(ext);
    if !same_ext {
        beside(path, stem + "."@ + ext)
    } else {
        match originals {
            OriginalHandling::Trash => path,
            OriginalHandling::Keep => beside(path, stem + " (re-encoded)."@ + ext),
        }
    }
}

/// Computes [`new_path`].
pub fn new_place(path: &str, stem: &str, ext: &str, originals: OriginalHandling) -> (r: String)
    ensures
        r@ == new_path(path@, stem@, ext@, originals),
{
    let same_ext: bool = match paths::extension_of(path) {
        Some(e) => text::eq_ignore_ascii_case(e.as_str(), ext),
        None => false,
    };
    if !same_ext {
        place_beside(path, stem.to_owned().concat(".").concat(ext).as_str())
    } else {
        match originals {
            OriginalHandling::Trash => path.to_owned(),
            OriginalHandling::Keep => place_beside(
                path,
                stem.to_owned().concat(" (re-encoded).").concat(ext).as_str(),
            ),
        }
    }
}

/// What is to be done with a finished temp file.
#[derive(Debug, PartialEq)]
pub enum Swap {
    /// Remove it.
    Discard(Outcome),
    /// Give it the times of the original, move the original to the trash if so
    /// asked, and move it into place.
    Replace { trash: bool, new_size: u64 },
}

/// Decides whether a finished temp file is swapped in, given its size or why
/// that can't be told, and whether there is something at the new place. It's
/// discarded if it isn't a saving, and an existing file other than the
/// original is never overwritten.
pub fn plan_swap(
    path: &str,
    size: u64,
    new_size: Result<u64, String>,
    new_place: &str,
    exists: bool,
    originals: OriginalHandling,
) -> (r: Swap)
    ensures
        match new_size {
            Err(e) => r == Swap::Discard(Outcome::Failed(e)),
            Ok(n) => if n >= size {
                r matches Swap::Discard(Outcome::Skipped(m)) && m@
                    == "re-encoded file wasn't smaller"@
            } else if exists && !paths::same_path(new_place@, path@) {
                r matches Swap::Discard(Outcome::Skipped(m)) && m@ == paths::name_or_empty(
                    new_place@,
                ) + " already exists"@
            } else {
                r == (Swap::Replace { trash: originals is Trash, new_size: n })
            },
        },
{
    match new_size {
        Err(e) => Swap::Discard(Outcome::Failed(e)),
        Ok(n) => if n >= size {
            Swap::Discard(Outcome::Skipped("re-encoded file wasn't smaller".to_owned()))
        } else if exists && !paths::are_same_path(new_place, path) {
            Swap::Discard(
                Outcome::Skipped(
                    paths::file_name_or_empty(new_place).concat(" already exists"),
                ),
            )
        } else {
            Swap::Replace { trash: originals == OriginalHandling::Trash, new_size: n }
        },
    }
}

/// What it means that the original can't be moved to the trash: the temp file
/// is removed and the original stays.
pub fn after_trash(error: &str) -> (r: Outcome)
    ensures
        r matches Outcome::Failed(m) && m@ == "couldn't move the original to the trash: "@ + error@,
{
    Outcome::Failed("couldn't move the original to the trash: ".to_owned().concat(error))
}

/// What moving the temp file into place has come to. The original may already
/// be in the trash, so a temp file that can't be moved is left in place rather
/// than lose both copies.
pub fn after_move(moved: Result<(), String>, temp: &str, new_place: String, new_size: u64) -> (r:
    Outcome)
    ensures
        match moved {
            Ok(()) => r == (Outcome::Saved { new_path: new_place, new_size }),
            Err(e) => r matches Outcome::Failed(m) && m@
                == "couldn't move the new file into place ("@ + e@ + "); it was left at "@ + temp@,
        },
{
    match moved {
        Ok(()) => Outcome::Saved { new_path: new_place, new_size },
        Err(e) => Outcome::Failed(
            "couldn't move the new file into place (".to_owned().concat(e.as_str()).concat(
                "); it was left at ",
            ).concat(temp),
        ),
    }
}

/// Which files are re-encoded: no temp files; images that are stored losslessly,
/// if images are; and videos, if videos are.
pub proof fn law_files_are_wanted_by_kind(
    images: Option<ImageTarget>,
    videos: VideoMode,
    path: Seq<char>,
)
    ensures
        ({
            let ext = paths::lower_extension(path);
            let image = ext is Some && seq![
                "png"@,
                "bmp"@,
                "tif"@,
                "tiff"@,
                "tga"@,
                "ppm"@,
                "pgm"@,
                "pbm"@,
                "pnm"@,
                "qoi"@,
            ].contains(ext->0);
            let video = ext is Some && seq![
                "mp4"@,
                "mkv"@,
                "avi"@,
                "mov"@,
                "webm"@,
                "m4v"@,
                "wmv"@,
                "flv"@,
                "mpg"@,
                "mpeg"@,
            ].contains(ext->0);
            wants(images, videos, path) <==> !names_temp(path) && (images is Some && image || !(
            videos is Skip) && video)
        }),
{
    let a = seq![
        "png"@,
        "bmp"@,
        "tif"@,
        "tiff"@,
        "tga"@,
        "ppm"@,
        "pgm"@,
        "pbm"@,
        "pnm"@,
        "qoi"@,
    ];
    let b = seq![
        "mp4"@,
        "mkv"@,
        "avi"@,
        "mov"@,
        "webm"@,
        "m4v"@,
        "wmv"@,
        "flv"@,
        "mpg"@,
        "mpeg"@,
    ];
    assert(a[0] == "png"@ && a[1] == "bmp"@ && a[2] == "tif"@ && a[3] == "tiff"@ && a[4] == "tga"@
        && a[5] == "ppm"@ && a[6] == "pgm"@ && a[7] == "pbm"@ && a[8] == "pnm"@ && a[9] == "qoi"@);
    assert(b[0] == "mp4"@ && b[1] == "mkv"@ && b[2] == "avi"@ && b[3] == "mov"@ && b[4] == "webm"@
        && b[5] == "m4v"@ && b[6] == "wmv"@ && b[7] == "flv"@ && b[8] == "mpg"@ && b[9]
        == "mpeg"@);
}

/// A run takes every file that is wanted and has a size, in order, and nothing
/// else.
pub proof fn law_wanted_files_are_taken(
    entries: Seq<Entry>,
    e: Entry,
    images: Option<ImageTarget>,
    videos: VideoMode,
)
    ensures
        wanted_files(Seq::<Entry>::empty(), images, videos).len() == 0,
        !e.is_file || e.size is None || !wants(images, videos, e.path@) ==> wanted_files(
            entries.push(e),
            images,
            videos,
        ) == wanted_files(entries, images, videos),
        e.is_file && wants(images, videos, e.path@) ==> (e.size matches Some(n) ==> wanted_files(
            entries.push(e),
            images,
            videos,
        ) == wanted_files(entries, images, videos).push((e.path, n))),
{
    assert(entries.push(e).drop_last() =~= entries);
}

/// An image is only written anew if that makes it smaller, and then as the bytes
/// that re-encoding gave, to a temp file beside it.
pub proof fn law_only_smaller_images_are_written(
    path: Seq<char>,
    size: u64,
    stem: Seq<char>,
    reencoded: Result<(Seq<u8>, Seq<char>), Seq<char>>,
    step: FileStep,
)
    requires
        follows_image(path, size, stem, reencoded, step),
    ensures
        step is Write <==> (reencoded matches Ok((b, _)) && b.len() < size),
        !(step is Write) ==> step matches FileStep::Done(Outcome::Skipped(_)),
        step matches FileStep::Write { stem: s, temp, bytes, ext } ==> {
            let (b, e) = reencoded->Ok_0;
            &&& s@ == stem
            &&& bytes@ == b
            &&& ext@ == e
            &&& temp@ == beside(path, "."@ + stem + ".dupe-rs-tmp"@ + "."@ + e)
        },
        reencoded matches Err(e) ==> (step matches FileStep::Done(Outcome::Skipped(m)) && m@ == e),
{
}

/// Where a re-encoded file goes. With another extension it stands beside the
/// original under the same stem; with the same it takes the place of an original
/// that goes to the trash, and stands beside one that stays under a name that
/// says so.
pub proof fn law_new_files_stand_by_the_original(
    path: Seq<char>,
    stem: Seq<char>,
    ext: Seq<char>,
    originals: OriginalHandling,
)
    ensures
        paths::extension(path) is None ==> new_path(path, stem, ext, originals) == beside(
            path,
            stem + "."@ + ext,
        ),
        paths::extension(path) matches Some(e) ==> {
            &&& text::ascii_lower(e) != text::ascii_lower(ext) ==> new_path(
                path,
                stem,
                ext,
                originals,
            ) == beside(path, stem + "."@ + ext)
            &&& text::ascii_lower(e) == text::ascii_lower(ext) && originals is Trash ==> new_path(
                path,
                stem,
                ext,
                originals,
            ) == path
            &&& text::ascii_lower(e) == text::ascii_lower(ext) && originals is Keep ==> new_path(
                path,
                stem,
                ext,
                originals,
            ) == beside(path, stem + " (re-encoded)."@ + ext)
        },
        paths::parent(path) matches Some(p) ==> beside(path, stem) == paths::join(p, stem),
        paths::parent(path) is None ==> beside(path, stem) == paths::join("."@, stem),
        temp_path(path, stem, ext) == beside(path, "."@ + stem + ".dupe-rs-tmp"@ + "."@ + ext),
{
}

/// What is told by its name to be a temp file: one whose name holds the mark.
pub proof fn law_temp_files_bear_a_mark(path: Seq<char>)
    ensures
        names_temp(path) <==> (paths::file_name(path) matches Some(n) && exists|i: int|
            0 <= i <= n.len() - ".dupe-rs-tmp"@.len() && #[trigger] n.subrange(
                i,
                i + ".dupe-rs-tmp"@.len(),
            ) == ".dupe-rs-tmp"@),
{
    if let Some(n) = paths::file_name(path) {
        let m = ".dupe-rs-tmp"@;
        if config::has_text(n, m) {
            let i = choose|i: int| text::stands_at(n, m, i);
            assert(n.subrange(i, i + m.len()) == m);
        }
        if exists|i: int|
            0 <= i <= n.len() - m.len() && #[trigger] n.subrange(i, i + m.len()) == m {
            let i = choose|i: int|
                0 <= i <= n.len() - m.len() && #[trigger] n.subrange(i, i + m.len()) == m;
            assert(text::stands_at(n, m, i));
        }
    }
}

/// A temp file is recognised by its path, so that one left behind is never
/// re-encoded itself. The folder must be one that names can be put behind, or
/// none; where the path is taken as it is written, there must be no slash in
/// the file's name.
pub proof fn law_temp_files_are_recognised(path: Seq<char>, ext: Seq<char>)
    requires
        paths::file_stem(path) is Some,
        forall|i: int| 0 <= i < ext.len() ==> !paths::is_separator(#[trigger] ext[i]),
        paths::holds_names(folder_of(path)) || folder_of(path).len() == 0,
        paths::is_verbatim(path) ==> !paths::name_or_empty(path).contains('/'),
    ensures
        names_temp(temp_path(path, paths::file_stem(path)->0, ext)),
{
    let stem = paths::file_stem(path)->0;
    let full = paths::file_name(path)->0;
    let name = "."@ + stem + temp_marker() + "."@ + ext;
    reveal_strlit(".");
    reveal_strlit(".dupe-rs-tmp");
    paths::lemma_file_name_is_plain(path);
    text::lemma_last_position(full, '.');
    assert forall|i: int| 0 <= i < stem.len() implies !paths::is_separator(
        #[trigger] stem[i],
    ) by {
        assert(stem[i] == full[i]);
    }
    assert forall|i: int| 0 <= i < name.len() implies !paths::is_separator(
        #[trigger] name[i],
    ) by {
        let m = 1 + stem.len();
        if 1 <= i < m {
            assert(name[i] == stem[i - 1]);
        } else if m <= i < m + 12 {
            assert(name[i] == temp_marker()[i - m]);
        } else if i > m + 12 {
            assert(name[i] == ext[i - m - 13]);
        }
    }
    assert(name.len() > 2);
    assert(name[0] == '.');
    paths::lemma_join_name(folder_of(path), name);
    let at = 1 + stem.len() as int;
    assert(name.subrange(at, at + temp_marker().len()) =~= temp_marker());
    assert(text::stands_at(name, temp_marker(), at));
}

} // verus!
