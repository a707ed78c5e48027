//! Finding pictures and videos that look alike.

use super::group;
use crate::grouping;
use crate::model::{self, FileEntry, MediaEntry, ScanEvent, SimilarGroup};
use crate::paths;
use crate::picture::{self, Picture, PictureValue, Sampling};
use crate::sorting;
use crate::text;
use vstd::prelude::*;

verus! {

/// Side of the square the image is shrunk to before hashing; the hash itself
/// is one bit narrower per row, since a difference hash compares each pixel to
/// its neighbour.
pub const HASH_SIDE: u32 = 9;

/// The extensions that the `image` crate knows.
pub open spec fn is_image_extension(e: Seq<char>) -> bool {
    ||| e == "avif"@ || e == "jpg"@ || e == "jpeg"@ || e == "jfif"@ || e == "png"@ || e == "apng"@
    ||| e == "gif"@ || e == "webp"@ || e == "tif"@ || e == "tiff"@ || e == "tga"@ || e == "dds"@
    ||| e == "bmp"@ || e == "ico"@ || e == "hdr"@ || e == "exr"@ || e == "pbm"@ || e == "pam"@
    ||| e == "ppm"@ || e == "pgm"@ || e == "pnm"@ || e == "ff"@ || e == "qoi"@
}

/// `image::ImageFormat::from_extension`: whether the extension, in whatever
/// case of `A` to `Z`, stands for one of the crate's formats.
#[verifier::external_body]
pub(crate) fn has_image_format(ext: &str) -> (r: bool)
    ensures
        r == is_image_extension(text::ascii_lower(ext@)),
{
    image::ImageFormat::from_extension(ext).is_some()
}

/// Whether the path's extension is that of an image.
pub open spec fn is_image(path: Seq<char>) -> bool {
    paths::extension(path) is Some && is_image_extension(
        text::ascii_lower(paths::extension(path)->0),
    )
}

/// Decides [`is_image`].
pub fn is_image_path(path: &str) -> (r: bool)
    ensures
        r == is_image(path@),
{
    match paths::extension_of(path) {
        Some(e) => has_image_format(e.as_str()),
        None => false,
    }
}

/// The extensions of videos.
pub open spec fn is_video_extension(e: Seq<char>) -> bool {
    ||| e == "mp4"@ || e == "mkv"@ || e == "avi"@ || e == "mov"@ || e == "webm"@
    ||| e == "m4v"@ || e == "wmv"@ || e == "flv"@ || e == "mpg"@ || e == "mpeg"@
}

/// Whether the path's extension is that of a video.
pub open spec fn is_video(path: Seq<char>) -> bool {
    paths::lower_extension(path) is Some && is_video_extension(paths::lower_extension(path)->0)
}

/// Decides [`is_video`].
pub fn is_video_path(path: &str) -> (r: bool)
    ensures
        r == is_video(path@),
{
    match paths::lower_extension_of(path) {
        Some(ext) => {
            let e: &str = ext.as_str();
            text::text_eq(e, "mp4") || text::text_eq(e, "mkv") || text::text_eq(e, "avi")
                || text::text_eq(e, "mov") || text::text_eq(e, "webm") || text::text_eq(e, "m4v")
                || text::text_eq(e, "wmv") || text::text_eq(e, "flv") || text::text_eq(e, "mpg")
                || text::text_eq(e, "mpeg")
        },
        None => false,
    }
}

/// The files that are images or videos.
pub open spec fn media_files(files: Seq<FileEntry>) -> Seq<FileEntry>
    decreases files.len(),
{
    if files.len() == 0 {
        seq![]
    } else {
        let before = media_files(files.drop_last());
        let f = files.last();
        if is_image(f.path@) || is_video(f.path@) {
            before.push(f)
        } else {
            before
        }
    }
}

/// A scan for media takes the images and the videos among the files, all of
/// them and nothing else, in order; videos are told by these extensions.
pub proof fn law_media_are_taken(files: Seq<FileEntry>, f: FileEntry)
    ensures
        media_files(Seq::<FileEntry>::empty()).len() == 0,
        media_files(files.push(f)) == (if is_image(f.path@) || is_video(f.path@) {
            media_files(files).push(f)
        } else {
            media_files(files)
        }),
        is_video(f.path@) <==> (paths::lower_extension(f.path@) matches Some(e) && seq![
            "mp4"@,
            "mkv"@,
            "avi"@,
            "mov"@,
            "webm"@,
            "m4v"@,
            "wmv"@,
            "flv"@,
            "mpg"@,
            "mpeg"@,
        ].contains(e)),
        is_image(f.path@) <==> (paths::extension(f.path@) matches Some(e) && is_image_extension(
            text::ascii_lower(e),
        )),
{
    assert(files.push(f).drop_last() =~= files);
    let b = seq![
        "mp4"@,
        "mkv"@,
        "avi"@,
        "mov"@,
        "webm"@,
        "m4v"@,
        "wmv"@,
        "flv"@,
        "mpg"@,
        "mpeg"@,
    ];
    assert(b[0] == "mp4"@ && b[1] == "mkv"@ && b[2] == "avi"@ && b[3] == "mov"@ && b[4] == "webm"@
        && b[5] == "m4v"@ && b[6] == "wmv"@ && b[7] == "flv"@ && b[8] == "mpg"@ && b[9]
        == "mpeg"@);
}

/// Narrows the files to images and videos.
pub fn keep_media(files: Vec<FileEntry>) -> (r: Vec<FileEntry>)
    ensures
        r@ == media_files(files@),
{
    let ghost all = files@;
    let mut out: Vec<FileEntry> = Vec::new();
    for f in it: files
        invariant
            it.seq() == all,
            out@ == media_files(all.take(it.index())),
    {
        assert(all.take(it.index() + 1).drop_last() =~= all.take(it.index()));
        if is_image_path(f.path.as_str()) || is_video_path(f.path.as_str()) {
            out.push(f);
        }
    }
    assert(all.take(all.len() as int) =~= all);
    out
}

/// Whether any of the files is a video.
pub fn has_videos(files: &Vec<FileEntry>) -> (r: bool)
    ensures
        r == exists|i: int| 0 <= i < files@.len() && is_video((#[trigger] files@[i]).path@),
{
    let mut i: usize = 0;
    while i < files.len()
        invariant
            i <= files@.len(),
            forall|k: int| 0 <= k < i ==> !is_video((#[trigger] files@[k]).path@),
        decreases files@.len() - i,
    {
        if is_video_path(files[i].path.as_str()) {
            return true;
        }
        i = i + 1;
    }
    false
}

/// What is reported if there are videos among the files but no ffmpeg to grab
/// their frames with: once, rather than for every file.
pub fn video_warning(files: &Vec<FileEntry>, ffmpeg_missing: bool) -> (r: Option<ScanEvent>)
    ensures
        match r {
            Some(event) => {
                &&& ffmpeg_missing && exists|i: int|
                    0 <= i < files@.len() && is_video((#[trigger] files@[i]).path@)
                &&& event matches ScanEvent::Error(m)
                &&& m@
                    == "ffmpeg not found on PATH: video files will be skipped (install ffmpeg to compare videos)."@
            },
            None => !ffmpeg_missing || forall|i: int|
                0 <= i < files@.len() ==> !is_video((#[trigger] files@[i]).path@),
        },
{
    if ffmpeg_missing && has_videos(files) {
        Some(
            ScanEvent::Error(
                "ffmpeg not found on PATH: video files will be skipped (install ffmpeg to compare videos).".to_owned(),
            ),
        )
    } else {
        None
    }
}

/// Whether the pixel at bit position `i` is brighter than the one to its
/// right: eight comparisons in each of the eight rows of nine pixels.
pub open spec fn is_brighter(luma: Seq<u8>, i: int) -> bool {
    luma[(i / 8) * 9 + i % 8] > luma[(i / 8) * 9 + i % 8 + 1]
}

/// Whether bit `i` of `x` is set.
pub open spec fn has_bit(x: u64, i: int) -> bool {
    (x >> (i as u64)) & 1 == 1
}

proof fn lemma_set_bit(x: u64, b: u64, i: u64)
    by (bit_vector)
    requires
        b < 64,
        i < 64,
    ensures
        (((x | (1u64 << b)) >> i) & 1 == 1) == ((x >> i) & 1 == 1 || i == b),
{
}

proof fn lemma_zero_bit(i: u64)
    by (bit_vector)
    requires
        i < 64,
    ensures
        (0u64 >> i) & 1 == 0,
{
}

/// 64-bit difference hash of a 9x8 grid of brightness: bit `i` is set when
/// pixel `i` is brighter than the pixel to its right. Visually similar images
/// (recompressed, resized, mildly color-corrected) end up with a small
/// Hamming distance between their hashes even though their bytes differ
/// completely.
pub fn dhash(luma: &[u8]) -> (r: u64)
    requires
        luma@.len() == 72,
    ensures
        forall|i: int| 0 <= i < 64 ==> #[trigger] has_bit(r, i) == is_brighter(luma@, i),
        forall|x: int, y: int|
            0 <= x < 8 && 0 <= y < 8 ==> (((r >> ((8 * y + x) as u64)) & 1 == 1) == (
            #[trigger] luma@[9 * y + x] > luma@[9 * y + x + 1])),
{
    let mut hash: u64 = 0;
    let mut bit: u64 = 0;
    proof {
        assert forall|i: int| 0 <= i < 64 implies !#[trigger] has_bit(0, i) by {
            lemma_zero_bit(i as u64);
        }
    }
    while bit < 64
        invariant
            luma@.len() == 72,
            bit <= 64,
            forall|i: int| 0 <= i < bit ==> #[trigger] has_bit(hash, i) == is_brighter(luma@, i),
            forall|i: int| bit <= i < 64 ==> !#[trigger] has_bit(hash, i),
        decreases 64 - bit,
    {
        let at: usize = (bit / 8 * 9 + bit % 8) as usize;
        let ghost before = hash;
        if luma[at] > luma[at + 1] {
            hash = hash | (1u64 << bit);
            assert forall|i: int| 0 <= i < 64 implies #[trigger] has_bit(hash, i) == (has_bit(
                before,
                i,
            ) || i == bit) by {
                lemma_set_bit(before, bit, i as u64);
            }
        }
        bit = bit + 1;
    }
    proof {
        assert forall|x: int, y: int| 0 <= x < 8 && 0 <= y < 8 implies (((hash >> ((8 * y
            + x) as u64)) & 1 == 1) == (#[trigger] luma@[9 * y + x] > luma@[9 * y + x + 1])) by {
            law_hash_compares_neighbours(luma@, hash, x, y);
        }
    }
    hash
}

/// What a hash of nine times eight pixels tells: bit `x` of the eight bits for
/// row `y` is set exactly if pixel `x` of that row is brighter than the next.
pub proof fn law_hash_compares_neighbours(luma: Seq<u8>, hash: u64, x: int, y: int)
    requires
        luma.len() == 72,
        forall|i: int| 0 <= i < 64 ==> #[trigger] has_bit(hash, i) == is_brighter(luma, i),
        0 <= x < 8,
        0 <= y < 8,
    ensures
        ((hash >> ((8 * y + x) as u64)) & 1 == 1) == (luma[9 * y + x] > luma[9 * y + x + 1]),
{
    let i = 8 * y + x;
    assert(has_bit(hash, i) == is_brighter(luma, i));
    assert(i / 8 == y && i % 8 == x);
}

/// Pictures with two neighbours the other way round, in whatever row, have
/// different hashes.
pub proof fn law_hash_sees_every_row(
    a: Seq<u8>,
    b: Seq<u8>,
    hash_a: u64,
    hash_b: u64,
    x: int,
    y: int,
)
    requires
        a.len() == 72,
        b.len() == 72,
        forall|i: int| 0 <= i < 64 ==> #[trigger] has_bit(hash_a, i) == is_brighter(a, i),
        forall|i: int| 0 <= i < 64 ==> #[trigger] has_bit(hash_b, i) == is_brighter(b, i),
        0 <= x < 8,
        0 <= y < 8,
        a[9 * y + x] > a[9 * y + x + 1],
        b[9 * y + x] <= b[9 * y + x + 1],
    ensures
        hash_a != hash_b,
        distance(hash_a, hash_b) > 0,
{
    law_hash_compares_neighbours(a, hash_a, x, y);
    law_hash_compares_neighbours(b, hash_b, x, y);
    law_distance_counts_bits(hash_a, hash_b, 0);
}

proof fn lemma_flip(x: u64, b: u64, i: u64)
    by (bit_vector)
    requires
        b < 64,
        i < 64,
    ensures
        (((x ^ (1u64 << b)) >> i) & 1 == 1) == (((x >> i) & 1 == 1) != (i == b)),
{
}

proof fn lemma_flipped_ones(x: u64, b: u64, n: int)
    requires
        b < 64,
        0 <= n <= 64,
    ensures
        ones(x ^ (1u64 << b), n) == ones(x, n) + (if b >= n {
            0int
        } else if has_bit(x, b as int) {
            -1
        } else {
            1
        }),
    decreases n,
{
    if n > 0 {
        lemma_flipped_ones(x, b, n - 1);
        lemma_flip(x, b, (n - 1) as u64);
    }
}

proof fn lemma_no_ones(x: u64, n: int)
    requires
        0 <= n <= 64,
        ones(x, n) == 0,
    ensures
        forall|i: int| 0 <= i < n ==> !#[trigger] has_bit(x, i),
    decreases n,
{
    if n > 0 {
        lemma_no_ones(x, n - 1);
    }
}

/// The distance counts the bits that differ: equal hashes are at distance
/// nought and no others are, and turning over one bit of either brings them one
/// bit closer if they differed there, and one further apart if they did not.
pub proof fn law_distance_counts_bits(a: u64, b: u64, i: u64)
    requires
        i < 64,
    ensures
        distance(a, b) == 0 <==> a == b,
        (a >> i) & 1 != (b >> i) & 1 ==> distance(a, b ^ (1u64 << i)) == distance(a, b) - 1,
        (a >> i) & 1 == (b >> i) & 1 ==> distance(a, b ^ (1u64 << i)) == distance(a, b) + 1,
{
    law_distance(a, b);
    let x = a ^ b;
    let m = 1u64 << i;
    assert(a ^ (b ^ m) == (a ^ b) ^ m) by (bit_vector);
    lemma_flipped_ones(x, i, 64);
    assert(((a ^ b) >> i) & 1 == 1 <==> (a >> i) & 1 != (b >> i) & 1) by (bit_vector);
    if distance(a, b) == 0 {
        lemma_no_ones(x, 64);
        lemma_all_bits(x);
        assert(a ^ b == 0 ==> a == b) by (bit_vector);
    }
}

/// A number without bits is nought.
proof fn lemma_all_bits(x: u64)
    requires
        forall|i: int| 0 <= i < 64 ==> !#[trigger] has_bit(x, i),
    ensures
        x == 0,
{
    if x != 0 {
        lemma_some_bit(x, 64);
    }
}

proof fn lemma_some_bit(x: u64, n: u64)
    requires
        n <= 64,
        n < 64 ==> x < (1u64 << n),
        forall|i: int| 0 <= i < 64 ==> !#[trigger] has_bit(x, i),
    ensures
        x == 0,
    decreases n,
{
    if n == 0 {
        assert(x < (1u64 << 0u64) ==> x == 0) by (bit_vector);
    } else {
        let m = (n - 1) as u64;
        assert(!has_bit(x, m as int));
        assert((n == 64 || x < (1u64 << n)) && 0 < n <= 64 && (x >> m) & 1 != 1 && m == n - 1 ==> x
            < (1u64 << m)) by (bit_vector);
        assert(m < 64 ==> (x >> m) & 1 == 0 || (x >> m) & 1 == 1) by (bit_vector);
        lemma_some_bit(x, m);
    }
}

/// How many of the lowest `n` bits of `x` are set.
pub open spec fn ones(x: u64, n: int) -> nat
    decreases n,
{
    if n <= 0 {
        0
    } else {
        ones(x, n - 1) + (if has_bit(x, n - 1) {
            1nat
        } else {
            0nat
        })
    }
}

/// `u64::count_ones`: the number of ones in the binary representation.
pub assume_specification[ u64::count_ones ](x: u64) -> (r: u32)
    ensures
        r == ones(x, 64),
;

/// In how many bits two hashes differ.
pub open spec fn distance(a: u64, b: u64) -> nat {
    ones(a ^ b, 64)
}

/// In how many bits two hashes differ.
pub fn hamming_distance(a: u64, b: u64) -> (r: u32)
    ensures
        r == distance(a, b),
{
    (a ^ b).count_ones()
}

/// A hash is at no distance from itself, and the distance is the same either
/// way.
pub proof fn law_distance(a: u64, b: u64)
    ensures
        distance(a, a) == 0,
        distance(a, b) == distance(b, a),
        distance(a, b) <= 64,
{
    assert(a ^ a == 0) by (bit_vector);
    assert(a ^ b == b ^ a) by (bit_vector);
    lemma_ones_zero(64);
    lemma_ones_bound(a ^ b, 64);
}

proof fn lemma_ones_zero(n: int)
    requires
        n <= 64,
    ensures
        ones(0, n) == 0,
    decreases n,
{
    if n > 0 {
        lemma_ones_zero(n - 1);
        lemma_zero_bit((n - 1) as u64);
    }
}

proof fn lemma_ones_bound(x: u64, n: int)
    requires
        n >= 0,
    ensures
        ones(x, n) <= n,
    decreases n,
{
    if n > 0 {
        lemma_ones_bound(x, n - 1);
    }
}

/// The brightness of a picture, shrunk to nine times eight pixels.
pub open spec fn small_luma(p: PictureValue) -> Seq<u8> {
    picture::luma_samples(
        p.2,
        picture::resized_samples(p.0, p.1, p.2, p.3, 9, 8, Sampling::Triangle),
    )
}

/// Whether this is the width, the height and the hash of a picture.
pub open spec fn is_hash(p: PictureValue, r: (u32, u32, u64)) -> bool {
    &&& r.0 == p.0
    &&& r.1 == p.1
    &&& forall|i: int| 0 <= i < 64 ==> #[trigger] has_bit(r.2, i) == is_brighter(small_luma(p), i)
}

/// What is known of the hash of a picture that was loaded or not.
pub open spec fn hashed(p: Result<PictureValue, Seq<char>>, r: Option<(u32, u32, u64)>) -> bool {
    match (p, r) {
        (Err(_), None) => true,
        (Ok(p), Some(r)) => is_hash(p, r),
        _ => false,
    }
}

/// Takes the width, the height and the perceptual hash of a picture.
pub fn hash_picture(p: &Picture) -> (r: (u32, u32, u64))
    ensures
        is_hash(p.value(), r),
{
    let small = p.resize_exact(HASH_SIDE, HASH_SIDE - 1, Sampling::Triangle).to_luma8();
    (p.width(), p.height(), dhash(small.as_slice()))
}

/// The hash of a picture compares the neighbours in its brightness, shrunk to
/// nine times eight pixels; with it stand the picture's own width and height.
pub proof fn law_picture_hash_compares_neighbours(
    p: PictureValue,
    r: (u32, u32, u64),
    x: int,
    y: int,
)
    requires
        is_hash(p, r),
        picture::luma_samples(
            p.2,
            picture::resized_samples(p.0, p.1, p.2, p.3, 9, 8, Sampling::Triangle),
        ).len() == 72,
        0 <= x < 8,
        0 <= y < 8,
    ensures
        r.0 == p.0,
        r.1 == p.1,
        ({
            let luma = picture::luma_samples(
                p.2,
                picture::resized_samples(p.0, p.1, p.2, p.3, 9, 8, Sampling::Triangle),
            );
            ((r.2 >> ((8 * y + x) as u64)) & 1 == 1) == (luma[9 * y + x] > luma[9 * y + x + 1])
        }),
{
    law_hash_compares_neighbours(small_luma(p), r.2, x, y);
}

/// Decodes an image file with this extension and returns its (width, height,
/// perceptual hash). Nothing if the extension is not that of an image.
pub fn hash_image(ext: &str, bytes: &[u8]) -> (r: Option<(u32, u32, u64)>)
    ensures
        if picture::names_format(ext@) {
            hashed(picture::loaded_picture(ext@, bytes@), r)
        } else {
            r is None
        },
{
    if !has_image_format(ext) {
        return None;
    }
    match Picture::load(ext, bytes) {
        Ok(p) => Some(hash_picture(&p)),
        Err(_) => None,
    }
}

/// Decodes a video frame that was grabbed as an image and returns its (width,
/// height, perceptual hash). Nothing if no frame was grabbed, or if its first
/// bytes tell of no format.
pub fn hash_video_frame(bytes: &[u8]) -> (r: Option<(u32, u32, u64)>)
    ensures
        match picture::guessed_format(bytes@) {
            Some(format) if bytes@.len() > 0 => hashed(
                picture::loaded_picture(format, bytes@),
                r,
            ),
            _ => r is None,
        },
{
    if bytes.len() == 0 {
        return None;
    }
    match picture::guess_format(bytes) {
        Some(format) => match Picture::load(format, bytes) {
            Ok(p) => Some(hash_picture(&p)),
            Err(_) => None,
        },
        None => None,
    }
}

/// A media file with its perceptual hash.
#[derive(Debug, PartialEq)]
pub struct Candidate {
    pub entry: MediaEntry,
    pub hash: u64,
}

impl Clone for Candidate {
    fn clone(&self) -> (r: Self)
        ensures
            r == *self,
    {
        Candidate { entry: self.entry.clone(), hash: self.hash }
    }
}

/// The media file that a decoded picture's file becomes.
pub fn make_candidate(f: FileEntry, decoded: Option<(u32, u32, u64)>) -> (r: Option<Candidate>)
    ensures
        match decoded {
            None => r is None,
            Some((width, height, hash)) => r == Some(
                Candidate {
                    entry: MediaEntry {
                        path: f.path,
                        size: f.size,
                        created: f.created,
                        modified: f.modified,
                        width,
                        height,
                    },
                    hash,
                },
            ),
        },
{
    match decoded {
        None => None,
        Some((width, height, hash)) => Some(
            Candidate {
                entry: MediaEntry {
                    path: f.path,
                    size: f.size,
                    created: f.created,
                    modified: f.modified,
                    width,
                    height,
                },
                hash,
            },
        ),
    }
}

/// The first cluster, from `g` on, whose first member is close to the hash.
pub open spec fn close_cluster(
    clusters: Seq<Seq<Candidate>>,
    hash: u64,
    threshold: u32,
    g: int,
) -> Option<int>
    decreases clusters.len() - g,
{
    if g < 0 || g >= clusters.len() {
        None
    } else if distance(clusters[g][0].hash, hash) <= threshold {
        Some(g)
    } else {
        close_cluster(clusters, hash, threshold, g + 1)
    }
}

/// The candidates clustered one by one: each joins the first cluster whose
/// first member is close, or starts a new one.
pub open spec fn clustered(candidates: Seq<Candidate>, threshold: u32) -> Seq<Seq<Candidate>>
    decreases candidates.len(),
{
    if candidates.len() == 0 {
        seq![]
    } else {
        let before = clustered(candidates.drop_last(), threshold);
        let c = candidates.last();
        match close_cluster(before, c.hash, threshold, 0) {
            Some(g) => before.update(g, before[g].push(c)),
            None => before.push(seq![c]),
        }
    }
}

proof fn lemma_close_cluster(
    clusters: Seq<Seq<Candidate>>,
    hash: u64,
    threshold: u32,
    g: int,
)
    requires
        0 <= g,
    ensures
        close_cluster(clusters, hash, threshold, g) matches Some(h) ==> {
            &&& g <= h < clusters.len()
            &&& distance(clusters[h][0].hash, hash) <= threshold
            &&& forall|k: int|
                g <= k < h ==> distance((#[trigger] clusters[k])[0].hash, hash) > threshold
        },
        close_cluster(clusters, hash, threshold, g) is None ==> forall|k: int|
            g <= k < clusters.len() ==> distance((#[trigger] clusters[k])[0].hash, hash)
                > threshold,
    decreases clusters.len() - g,
{
    if g < clusters.len() && distance(clusters[g][0].hash, hash) > threshold {
        lemma_close_cluster(clusters, hash, threshold, g + 1);
    }
}

/// What clusters have in common: none is empty, every member is close to the
/// first, and the first members of different clusters are not close.
pub open spec fn are_clusters(clusters: Seq<Seq<Candidate>>, threshold: u32) -> bool {
    &&& forall|g: int| 0 <= g < clusters.len() ==> (#[trigger] clusters[g]).len() > 0
    &&& forall|g: int, a: int|
        0 <= g < clusters.len() && 0 < a < clusters[g].len() ==> distance(
            clusters[g][0].hash,
            (#[trigger] clusters[g][a]).hash,
        ) <= threshold
    &&& forall|g: int, h: int|
        0 <= g < h < clusters.len() ==> distance(
            (#[trigger] clusters[g])[0].hash,
            (#[trigger] clusters[h])[0].hash,
        ) > threshold
}

/// Similar pictures: whatever is clustered, every member of a cluster is
/// within the threshold of its first member, and the first members of two
/// clusters are not.
pub proof fn law_clusters_are_close(candidates: Seq<Candidate>, threshold: u32)
    ensures
        are_clusters(clustered(candidates, threshold), threshold),
    decreases candidates.len(),
{
    if candidates.len() > 0 {
        law_clusters_are_close(candidates.drop_last(), threshold);
        let before = clustered(candidates.drop_last(), threshold);
        let r = clustered(candidates, threshold);
        let c = candidates.last();
        lemma_close_cluster(before, c.hash, threshold, 0);
        match close_cluster(before, c.hash, threshold, 0) {
            Some(g) => {
                assert forall|h: int| 0 <= h < r.len() implies (#[trigger] r[h]).len() > 0 && r[h][0]
                    == before[h][0] by {}
                assert forall|h: int, a: int|
                    0 <= h < r.len() && 0 < a < r[h].len() implies distance(
                    r[h][0].hash,
                    (#[trigger] r[h][a]).hash,
                ) <= threshold by {
                    assert(r[h][0] == before[h][0]);
                    if !(h == g && a == before[g].len()) {
                        assert(r[h][a] == before[h][a]);
                    }
                }
                assert forall|x: int, y: int| 0 <= x < y < r.len() implies distance(
                    (#[trigger] r[x])[0].hash,
                    (#[trigger] r[y])[0].hash,
                ) > threshold by {
                    assert(distance(before[x][0].hash, before[y][0].hash) > threshold);
                }
            },
            None => {
                assert forall|h: int, a: int|
                    0 <= h < r.len() && 0 < a < r[h].len() implies distance(
                    r[h][0].hash,
                    (#[trigger] r[h][a]).hash,
                ) <= threshold by {
                    assert(r[h][a] == before[h][a]);
                }
                assert forall|x: int, y: int| 0 <= x < y < r.len() implies distance(
                    (#[trigger] r[x])[0].hash,
                    (#[trigger] r[y])[0].hash,
                ) > threshold by {
                    assert(r[x] == before[x]);
                    if y < before.len() {
                        assert(r[y] == before[y]);
                    }
                }
            },
        }
    }
}

/// Greedily clusters candidates by perceptual hash: each candidate joins the
/// first existing cluster whose representative (its first member) is within
/// `threshold` bits, or starts a new cluster otherwise. This is O(n *
/// clusters) rather than a full O(n^2) comparison, which is adequate for the
/// media libraries this tool targets without needing an index structure.
pub fn cluster_by_similarity(candidates: Vec<Candidate>, threshold: u32) -> (r: Vec<
    Vec<Candidate>,
>)
    ensures
        model::nested(r@) == clustered(candidates@, threshold),
{
    let ghost all = candidates@;
    let mut clusters: Vec<Vec<Candidate>> = Vec::new();
    for c in it: candidates
        invariant
            it.seq() == all,
            model::nested(clusters@) =~= clustered(all.take(it.index()), threshold),
    {
        let ghost now = all.take(it.index() + 1);
        let ghost before = model::nested(clusters@);
        proof {
            assert(now.drop_last() =~= all.take(it.index()));
            law_clusters_are_close(now.drop_last(), threshold);
        }
        let n: usize = clusters.len();
        assert forall|h: int| 0 <= h < n implies (#[trigger] clusters@[h])@.len() > 0 by {
            assert(before[h].len() > 0);
        }
        let mut g: usize = 0;
        while g < n && hamming_distance(clusters[g][0].hash, c.hash) > threshold
            invariant
                g <= n,
                n == clusters@.len(),
                before == model::nested(clusters@),
                are_clusters(before, threshold),
                close_cluster(before, c.hash, threshold, 0) == close_cluster(
                    before,
                    c.hash,
                    threshold,
                    g as int,
                ),
                forall|h: int| 0 <= h < n ==> (#[trigger] clusters@[h])@.len() > 0,
            decreases n - g,
        {
            assert(before[g as int] == clusters@[g as int]@);
            g = g + 1;
        }
        if g < n {
            assert(before[g as int] == clusters@[g as int]@);
            clusters[g].push(c);
            assert(model::nested(clusters@) =~= before.update(g as int, before[g as int].push(c)));
        } else {
            let mut fresh: Vec<Candidate> = Vec::new();
            fresh.push(c);
            clusters.push(fresh);
            assert(fresh@ =~= seq![c]);
            assert(model::nested(clusters@) =~= before.push(seq![c]));
        }
    }
    assert(all.take(all.len() as int) =~= all);
    clusters
}

/// How many pixels a media file has.
pub open spec fn pixels(m: MediaEntry) -> int {
    m.width * m.height
}

/// Orders the media files of a group: the larger picture first, then the older
/// one, then the one with the shorter file name.
pub open spec fn original_le(a: MediaEntry, b: MediaEntry) -> bool {
    pixels(b) < pixels(a) || (pixels(a) == pixels(b) && (a.modified < b.modified || (a.modified
        == b.modified && group::name_len(a.path@) <= group::name_len(b.path@))))
}

/// The media files with the "original" first.
pub open spec fn original_first(files: Seq<MediaEntry>) -> Seq<MediaEntry> {
    sorting::sorted(files, |a: MediaEntry, b: MediaEntry| original_le(a, b))
}

/// Copies the media files at the listed positions.
fn pick_media(files: &Vec<MediaEntry>, list: &Vec<usize>) -> (r: Vec<MediaEntry>)
    requires
        forall|a: int| 0 <= a < list@.len() ==> #[trigger] list@[a] < files@.len(),
    ensures
        r@ == sorting::pick(files@, sorting::positions(list@)),
{
    let mut out: Vec<MediaEntry> = Vec::new();
    let mut k: usize = 0;
    while k < list.len()
        invariant
            k <= list@.len(),
            forall|a: int| 0 <= a < list@.len() ==> #[trigger] list@[a] < files@.len(),
            out@ =~= sorting::pick(files@, sorting::positions(list@.take(k as int))),
        decreases list@.len() - k,
    {
        assert(list@.take(k + 1) =~= list@.take(k as int).push(list@[k as int]));
        out.push(files[list[k]].clone());
        k = k + 1;
    }
    assert(list@.take(list@.len() as int) =~= list@);
    out
}

/// How many pixels a picture of this size has.
fn pixel_count(width: u32, height: u32) -> (r: u64)
    ensures
        r == width * height,
{
    assert(width * height <= 0xffff_ffff * 0xffff_ffff) by (nonlinear_arith)
        requires
            width <= 0xffff_ffff,
            height <= 0xffff_ffff,
    ;
    width as u64 * height as u64
}

/// Sorts a similar-media group in place so the "original" ends up at index 0:
/// highest resolution first, then oldest `modified`, then shortest filename.
pub fn sort_group_original(files: &mut Vec<MediaEntry>)
    ensures
        final(files)@ == original_first(old(files)@),
        forall|a: int|
            0 <= a < final(files)@.len() ==> final(files)@[0].width * final(files)@[0].height >= (
            #[trigger] final(files)@[a]).width * final(files)@[a].height,
{
    let n: usize = files.len();
    let mut lens: Vec<usize> = Vec::new();
    let mut sizes: Vec<u64> = Vec::new();
    let mut i: usize = 0;
    while i < n
        invariant
            i <= n,
            n == files@.len(),
            lens@.len() == i,
            sizes@.len() == i,
            forall|k: int| 0 <= k < i ==> #[trigger] lens@[k] == group::name_len(files@[k].path@),
            forall|k: int| 0 <= k < i ==> #[trigger] sizes@[k] == pixels(files@[k]),
        decreases n - i,
    {
        lens.push(group::name_len_of(files[i].path.as_str()));
        sizes.push(pixel_count(files[i].width, files[i].height));
        i = i + 1;
    }
    let list: &Vec<MediaEntry> = &*files;
    let ghost le = |i: int, j: int| original_le(list@[i], list@[j]);
    let not_above = |i: usize, j: usize| -> (b: bool)
        requires
            i < n,
            j < n,
            n == list@.len(),
            n == lens@.len(),
            n == sizes@.len(),
            forall|k: int| 0 <= k < n ==> #[trigger] lens@[k] == group::name_len(list@[k].path@),
            forall|k: int| 0 <= k < n ==> #[trigger] sizes@[k] == pixels(list@[k]),
        ensures
            b == original_le(list@[i as int], list@[j as int]),
        {
            assert(lens@[i as int] == group::name_len(list@[i as int].path@));
            assert(lens@[j as int] == group::name_len(list@[j as int].path@));
            assert(sizes@[i as int] == pixels(list@[i as int]));
            assert(sizes@[j as int] == pixels(list@[j as int]));
            sizes[j] < sizes[i] || (sizes[i] == sizes[j] && (list[i].modified < list[j].modified
                || (list[i].modified == list[j].modified && lens[i] <= lens[j])))
        };
    let order = sorting::sort_positions(n, not_above, Ghost(le));
    assert forall|a: int| 0 <= a < order@.len() implies #[trigger] order@[a] < list@.len() by {
        assert(sorting::positions(order@)[a] == order@[a]);
    }
    let sorted = pick_media(list, &order);
    proof {
        let pred = |a: MediaEntry, b: MediaEntry| original_le(a, b);
        assert(le =~= (|i: int, j: int| pred(list@[i], list@[j])));
        law_media_are_sorted_by_size(list@);
    }
    *files = sorted;
}

/// A sorted group of media files goes from the most pixels to the fewest, those
/// of one size from the oldest to the newest by when they were last modified,
/// and of those from the shortest file name to the longest. It holds the same
/// files, each as often as before.
pub proof fn law_media_are_sorted_by_size(files: Seq<MediaEntry>)
    ensures
        original_first(files).to_multiset() == files.to_multiset(),
        forall|a: int, b: int|
            0 <= a <= b < original_first(files).len() ==> {
                let x = #[trigger] original_first(files)[a];
                let y = #[trigger] original_first(files)[b];
                &&& x.width * x.height >= y.width * y.height
                &&& x.width * x.height == y.width * y.height ==> x.modified <= y.modified
                &&& x.width * x.height == y.width * y.height && x.modified == y.modified
                    ==> group::name_len(x.path@) <= group::name_len(y.path@)
            },
{
    let le = |a: MediaEntry, b: MediaEntry| original_le(a, b);
    assert(sorting::ranks(files.len() as int, |i: int, j: int| le(files[i], files[j])));
    sorting::lemma_sorted(files, le);
    sorting::lemma_sorted_multiset(files, le);
    let r = original_first(files);
    assert forall|a: int, b: int| 0 <= a <= b < r.len() implies {
        let x = #[trigger] r[a];
        let y = #[trigger] r[b];
        &&& x.width * x.height >= y.width * y.height
        &&& x.width * x.height == y.width * y.height ==> x.modified <= y.modified
        &&& x.width * x.height == y.width * y.height && x.modified == y.modified
            ==> group::name_len(x.path@) <= group::name_len(y.path@)
    } by {
        assert(le(r[a], r[b]));
    }
}

/// The folders of the media files.
pub open spec fn parent_ids(files: Seq<MediaEntry>) -> Seq<Option<Seq<char>>> {
    files.map_values(|f: MediaEntry| group::parent_id(f.path@))
}

/// The media files folder by folder, folders with a single file left out.
pub open spec fn by_parent(files: Seq<MediaEntry>) -> Seq<Seq<MediaEntry>> {
    group::several(
        group::pick_lists(
            files,
            grouping::classes(files.len(), group::option_ranking(parent_ids(files))),
        ),
    )
}

/// Splits a cluster by parent directory; folders with a single file are
/// dropped.
pub fn split_by_parent(files: Vec<MediaEntry>) -> (r: Vec<Vec<MediaEntry>>)
    ensures
        model::nested(r@) == by_parent(files@),
{
    let n: usize = files.len();
    let mut keys: Vec<Option<String>> = Vec::new();
    let mut i: usize = 0;
    while i < n
        invariant
            i <= n,
            n == files@.len(),
            group::option_texts(keys@) =~= parent_ids(files@.take(i as int)),
        decreases n - i,
    {
        assert(files@.take(i + 1) =~= files@.take(i as int).push(files@[i as int]));
        let key = group::parent_id_of(files[i].path.as_str());
        let ghost before = keys@;
        keys.push(key);
        assert(group::option_texts(keys@) =~= group::option_texts(before).push(
            grouping::option_text(key),
        ));
        assert(parent_ids(files@.take(i + 1)) =~= parent_ids(files@.take(i as int)).push(
            group::parent_id(files@[i as int].path@),
        ));
        i = i + 1;
    }
    assert(files@.take(n as int) =~= files@);
    assert(keys@.len() == group::option_texts(keys@).len());
    let lists = group::group_by_option(&keys);
    let ghost all = group::pick_lists(files@, grouping::position_lists(lists@));
    let mut out: Vec<Vec<MediaEntry>> = Vec::new();
    let mut g: usize = 0;
    while g < lists.len()
        invariant
            g <= lists@.len(),
            all == group::pick_lists(files@, grouping::position_lists(lists@)),
            forall|h: int, a: int|
                0 <= h < lists@.len() && 0 <= a < lists@[h]@.len() ==> #[trigger] lists@[h]@[a]
                    < files@.len(),
            model::nested(out@) =~= group::several(all.take(g as int)),
        decreases lists@.len() - g,
    {
        assert(all.take(g + 1).drop_last() =~= all.take(g as int));
        assert(all[g as int] == sorting::pick(files@, sorting::positions(lists@[g as int]@)));
        if lists[g].len() > 1 {
            let picked = pick_media(&files, &lists[g]);
            let ghost before = model::nested(out@);
            out.push(picked);
            assert(model::nested(out@) =~= before.push(picked@));
        }
        g = g + 1;
    }
    assert(all.take(all.len() as int) =~= all);
    out
}

/// The media files of a cluster.
pub open spec fn entries(cluster: Seq<Candidate>) -> Seq<MediaEntry> {
    cluster.map_values(|c: Candidate| c.entry)
}

/// The groups that one cluster makes: none if it has a single member, and
/// folder by folder if only files in the same folder count.
pub open spec fn cluster_groups(
    cluster: Seq<Candidate>,
    same_folder_only: bool,
) -> Seq<Seq<MediaEntry>> {
    if cluster.len() <= 1 {
        seq![]
    } else {
        (if same_folder_only {
            by_parent(entries(cluster))
        } else {
            seq![entries(cluster)]
        }).map_values(|l: Seq<MediaEntry>| original_first(l))
    }
}

/// The groups that the clusters make.
pub open spec fn all_cluster_groups(
    clusters: Seq<Seq<Candidate>>,
    same_folder_only: bool,
) -> Seq<Seq<MediaEntry>>
    decreases clusters.len(),
{
    if clusters.len() == 0 {
        seq![]
    } else {
        all_cluster_groups(clusters.drop_last(), same_folder_only) + cluster_groups(
            clusters.last(),
            same_folder_only,
        )
    }
}

/// The groups as lists of media files.
pub open spec fn similar_lists(groups: Seq<SimilarGroup>) -> Seq<Seq<MediaEntry>> {
    groups.map_values(|g: SimilarGroup| g.files@)
}

/// The original of a group is the picture with the most pixels, of those the
/// oldest, and of those the one with the shortest file name; a group keeps its
/// files however they are sorted.
pub proof fn law_original_is_largest(files: Seq<MediaEntry>)
    ensures
        original_first(files).len() == files.len(),
        forall|k: int|
            0 <= k < files.len() ==> original_first(files).contains(#[trigger] files[k]),
        forall|k: int|
            0 <= k < files.len() ==> files.contains(#[trigger] original_first(files)[k]),
        forall|k: int|
            0 <= k < files.len() ==> original_le(
                original_first(files)[0],
                #[trigger] original_first(files)[k],
            ),
{
    let le = |a: MediaEntry, b: MediaEntry| original_le(a, b);
    assert(sorting::ranks(files.len() as int, |i: int, j: int| le(files[i], files[j])));
    sorting::lemma_sorted(files, le);
}

proof fn lemma_parts_share_their_folder(files: Seq<MediaEntry>, g: int)
    requires
        0 <= g < by_parent(files).len(),
    ensures
        by_parent(files)[g].len() > 1,
        forall|a: int|
            0 <= a < by_parent(files)[g].len() ==> files.contains(#[trigger] by_parent(files)[g][a])
                && group::parent_id(by_parent(files)[g][a].path@) == group::parent_id(
                by_parent(files)[g][0].path@,
            ),
{
    let keys = parent_ids(files);
    let le = group::option_ranking(keys);
    let c = grouping::classes(files.len(), le);
    let lists = group::pick_lists(files, c);
    group::lemma_option_ranking(keys);
    grouping::lemma_classes(files.len(), le);
    crate::scanner::lemma_several(lists);
    let part = by_parent(files)[g];
    assert(lists.contains(part));
    let h = choose|h: int| 0 <= h < lists.len() && lists[h] == part;
    assert forall|a: int| 0 <= a < part.len() implies files.contains(#[trigger] part[a])
        && group::parent_id(part[a].path@) == group::parent_id(part[0].path@) by {
        assert(part[a] == files[c[h][a]] && part[0] == files[c[h][0]]);
        assert(0 <= c[h][a] < files.len() && 0 <= c[h][0] < files.len());
        assert(grouping::alike(le, c[h][a], c[h][0]));
        grouping::lemma_option_le_order(keys[c[h][a]], keys[c[h][0]], keys[c[h][0]]);
    }
}

/// Whether the file is one of the candidates, with a hash close to this one.
pub open spec fn is_near(
    candidates: Seq<Candidate>,
    threshold: u32,
    hash: u64,
    file: MediaEntry,
) -> bool {
    exists|i: int|
        0 <= i < candidates.len() && (#[trigger] candidates[i]).entry == file && distance(
            hash,
            candidates[i].hash,
        ) <= threshold
}

/// Whether the files look alike: several of the candidates, all with hashes
/// close to that of one of them, in one folder if so asked, the one with the
/// most pixels first.
pub open spec fn are_alike(
    candidates: Seq<Candidate>,
    threshold: u32,
    same_folder_only: bool,
    members: Seq<MediaEntry>,
) -> bool {
    &&& members.len() > 1
    &&& exists|c: int|
        0 <= c < candidates.len() && forall|a: int|
            0 <= a < members.len() ==> is_near(
                candidates,
                threshold,
                (#[trigger] candidates[c]).hash,
                #[trigger] members[a],
            )
    &&& forall|a: int| 0 <= a < members.len() ==> original_le(members[0], #[trigger] members[a])
    &&& same_folder_only ==> forall|a: int|
        0 <= a < members.len() ==> group::parent_id((#[trigger] members[a]).path@)
            == group::parent_id(members[0].path@)
}

proof fn lemma_members_are_candidates(candidates: Seq<Candidate>, threshold: u32, g: int, a: int)
    requires
        0 <= g < clustered(candidates, threshold).len(),
        0 <= a < clustered(candidates, threshold)[g].len(),
    ensures
        candidates.contains(clustered(candidates, threshold)[g][a]),
    decreases candidates.len(),
{
    if candidates.len() > 0 {
        let t = candidates.drop_last();
        let before = clustered(t, threshold);
        let r = clustered(candidates, threshold);
        lemma_close_cluster(before, candidates.last().hash, threshold, 0);
        if g < before.len() && a < before[g].len() {
            lemma_members_are_candidates(t, threshold, g, a);
            let i = choose|i: int| 0 <= i < t.len() && t[i] == before[g][a];
            assert(candidates[i] == r[g][a]);
        } else {
            assert(r[g][a] == candidates.last());
            assert(candidates[candidates.len() - 1] == r[g][a]);
        }
    }
}

proof fn lemma_cluster_group(
    candidates: Seq<Candidate>,
    threshold: u32,
    same_folder_only: bool,
    h: int,
    k: int,
)
    requires
        0 <= h < clustered(candidates, threshold).len(),
        0 <= k < cluster_groups(clustered(candidates, threshold)[h], same_folder_only).len(),
    ensures
        are_alike(
            candidates,
            threshold,
            same_folder_only,
            cluster_groups(clustered(candidates, threshold)[h], same_folder_only)[k],
        ),
{
    let cluster = clustered(candidates, threshold)[h];
    let found = entries(cluster);
    let parts = if same_folder_only {
        by_parent(found)
    } else {
        seq![found]
    };
    let part = parts[k];
    let members = cluster_groups(cluster, same_folder_only)[k];
    assert(members == original_first(part));
    law_original_is_largest(part);
    if same_folder_only {
        lemma_parts_share_their_folder(found, k);
    }
    law_clusters_are_close(candidates, threshold);
    lemma_members_are_candidates(candidates, threshold, h, 0);
    let c = choose|c: int| 0 <= c < candidates.len() && candidates[c] == cluster[0];
    assert forall|x: MediaEntry| #[trigger] found.contains(x) implies is_near(
        candidates,
        threshold,
        candidates[c].hash,
        x,
    ) by {
        let b = choose|b: int| 0 <= b < found.len() && found[b] == x;
        lemma_members_are_candidates(candidates, threshold, h, b);
        let i = choose|i: int| 0 <= i < candidates.len() && candidates[i] == cluster[b];
        law_distance(cluster[0].hash, cluster[b].hash);
        assert(candidates[i].entry == x);
    }
    assert forall|x: MediaEntry| #[trigger] part.contains(x) implies found.contains(x) && (
    same_folder_only ==> group::parent_id(x.path@) == group::parent_id(part[0].path@)) by {
        let b = choose|b: int| 0 <= b < part.len() && part[b] == x;
        assert(found.contains(part[b]));
    }
    assert(part.contains(members[0]));
    assert forall|a: int| 0 <= a < members.len() implies is_near(
        candidates,
        threshold,
        (#[trigger] candidates[c]).hash,
        #[trigger] members[a],
    ) && part.contains(members[a]) by {
        assert(part.contains(members[a]));
        assert(found.contains(members[a]));
    }
}

proof fn lemma_all_cluster_groups(clusters: Seq<Seq<Candidate>>, same_folder_only: bool, g: int)
    requires
        0 <= g < all_cluster_groups(clusters, same_folder_only).len(),
    ensures
        exists|h: int, k: int|
            0 <= h < clusters.len() && 0 <= k < cluster_groups(clusters[h], same_folder_only).len()
                && all_cluster_groups(clusters, same_folder_only)[g]
                == #[trigger] cluster_groups(clusters[h], same_folder_only)[k],
    decreases clusters.len(),
{
    if clusters.len() > 0 {
        let t = clusters.drop_last();
        let before = all_cluster_groups(t, same_folder_only);
        if g < before.len() {
            lemma_all_cluster_groups(t, same_folder_only, g);
            let (h, k) = choose|h: int, k: int|
                0 <= h < t.len() && 0 <= k < cluster_groups(t[h], same_folder_only).len()
                    && before[g] == #[trigger] cluster_groups(t[h], same_folder_only)[k];
            assert(all_cluster_groups(clusters, same_folder_only)[g] == cluster_groups(
                clusters[h],
                same_folder_only,
            )[k]);
        } else {
            let h = clusters.len() - 1;
            assert(all_cluster_groups(clusters, same_folder_only)[g] == cluster_groups(
                clusters[h],
                same_folder_only,
            )[g - before.len()]);
        }
    }
}

/// Nothing is shown as similar without cause: each group of a scan holds
/// several candidates with hashes close to that of one of them, with the
/// largest picture, then the oldest, as the original. In the mode for one
/// folder they share their folder.
pub proof fn law_shown_groups_are_alike(
    candidates: Seq<Candidate>,
    threshold: u32,
    same_folder_only: bool,
    g: int,
)
    requires
        0 <= g < all_cluster_groups(clustered(candidates, threshold), same_folder_only).len(),
    ensures
        are_alike(
            candidates,
            threshold,
            same_folder_only,
            all_cluster_groups(clustered(candidates, threshold), same_folder_only)[g],
        ),
{
    let clusters = clustered(candidates, threshold);
    lemma_all_cluster_groups(clusters, same_folder_only, g);
    let (h, k) = choose|h: int, k: int|
        0 <= h < clusters.len() && 0 <= k < cluster_groups(clusters[h], same_folder_only).len()
            && all_cluster_groups(clusters, same_folder_only)[g] == #[trigger] cluster_groups(
            clusters[h],
            same_folder_only,
        )[k];
    lemma_cluster_group(candidates, threshold, same_folder_only, h, k);
}

/// What a shown group of media files has: at least two members, the first with
/// the most pixels, of those the oldest, of those with the shortest name; one
/// candidate whose hash differs from that of each member in at most as many bits
/// as the threshold says; and one folder, in the mode for that.
pub proof fn law_members_of_a_similar_group_agree(
    candidates: Seq<Candidate>,
    threshold: u32,
    same_folder_only: bool,
    g: int,
)
    requires
        0 <= g < all_cluster_groups(clustered(candidates, threshold), same_folder_only).len(),
    ensures
        ({
            let m = all_cluster_groups(clustered(candidates, threshold), same_folder_only)[g];
            &&& m.len() >= 2
            &&& forall|a: int|
                0 <= a < m.len() ==> {
                    let x = m[0];
                    let y = #[trigger] m[a];
                    &&& x.width * x.height >= y.width * y.height
                    &&& x.width * x.height == y.width * y.height ==> x.modified <= y.modified
                    &&& x.width * x.height == y.width * y.height && x.modified == y.modified
                        ==> group::name_len(x.path@) <= group::name_len(y.path@)
                    &&& same_folder_only ==> match (
                        paths::parent(x.path@),
                        paths::parent(y.path@),
                    ) {
                        (Some(p), Some(q)) => paths::path_id(p) == paths::path_id(q),
                        (None, None) => true,
                        _ => false,
                    }
                }
            &&& exists|c: int|
                0 <= c < candidates.len() && forall|a: int|
                    0 <= a < m.len() ==> lies_near(
                        candidates,
                        (#[trigger] candidates[c]).hash,
                        threshold,
                        #[trigger] m[a],
                    )
        }),
{
    let m = all_cluster_groups(clustered(candidates, threshold), same_folder_only)[g];
    law_shown_groups_are_alike(candidates, threshold, same_folder_only, g);
    let c = choose|c: int|
        0 <= c < candidates.len() && forall|a: int|
            0 <= a < m.len() ==> is_near(
                candidates,
                threshold,
                (#[trigger] candidates[c]).hash,
                #[trigger] m[a],
            );
    assert forall|a: int| 0 <= a < m.len() implies lies_near(
        candidates,
        candidates[c].hash,
        threshold,
        #[trigger] m[a],
    ) by {
        assert(is_near(candidates, threshold, candidates[c].hash, m[a]));
        let i = choose|i: int|
            0 <= i < candidates.len() && (#[trigger] candidates[i]).entry == m[a] && distance(
                candidates[c].hash,
                candidates[i].hash,
            ) <= threshold;
        assert(candidates[i].entry == m[a]);
    }
    assert(forall|a: int|
        0 <= a < m.len() ==> lies_near(
            candidates,
            (#[trigger] candidates[c]).hash,
            threshold,
            #[trigger] m[a],
        ));
    assert forall|a: int| 0 <= a < m.len() implies {
        let x = m[0];
        let y = #[trigger] m[a];
        &&& x.width * x.height >= y.width * y.height
        &&& x.width * x.height == y.width * y.height ==> x.modified <= y.modified
        &&& x.width * x.height == y.width * y.height && x.modified == y.modified
            ==> group::name_len(x.path@) <= group::name_len(y.path@)
        &&& same_folder_only ==> match (paths::parent(x.path@), paths::parent(y.path@)) {
            (Some(p), Some(q)) => paths::path_id(p) == paths::path_id(q),
            (None, None) => true,
            _ => false,
        }
    } by {
        assert(original_le(m[0], m[a]));
        if same_folder_only {
            assert(group::parent_id(m[a].path@) == group::parent_id(m[0].path@));
        }
    }
}

/// Whether a file is that of a candidate whose hash differs from this one in at
/// most as many bits as the threshold says.
pub open spec fn lies_near(
    candidates: Seq<Candidate>,
    hash: u64,
    threshold: u32,
    file: MediaEntry,
) -> bool {
    exists|i: int|
        0 <= i < candidates.len() && (#[trigger] candidates[i]).entry == file && ones(
            hash ^ candidates[i].hash,
            64,
        ) <= threshold
}

/// Whether some cluster holds both.
pub open spec fn clustered_together(
    clusters: Seq<Seq<Candidate>>,
    x: Candidate,
    y: Candidate,
) -> bool {
    exists|g: int|
        0 <= g < clusters.len() && (#[trigger] clusters[g]).contains(x) && clusters[g].contains(y)
}

proof fn lemma_clusters_grow(candidates: Seq<Candidate>, threshold: u32, g: int, x: Candidate)
    requires
        candidates.len() > 0,
        0 <= g < clustered(candidates.drop_last(), threshold).len(),
        clustered(candidates.drop_last(), threshold)[g].contains(x),
    ensures
        g < clustered(candidates, threshold).len(),
        clustered(candidates, threshold)[g].contains(x),
        clustered(candidates.drop_last(), threshold)[g].len() > 0 ==> clustered(
            candidates,
            threshold,
        )[g][0] == clustered(candidates.drop_last(), threshold)[g][0],
{
    let before = clustered(candidates.drop_last(), threshold);
    let r = clustered(candidates, threshold);
    lemma_close_cluster(before, candidates.last().hash, threshold, 0);
    let k = choose|k: int| 0 <= k < before[g].len() && before[g][k] == x;
    assert(r[g][k] == x);
}

/// Every candidate stands in some cluster, and one that is no further from the
/// first candidate than the threshold stands in one cluster with it: the first
/// candidate starts the first cluster, and clusters are tried in order.
pub proof fn law_close_pictures_join_the_first(candidates: Seq<Candidate>, threshold: u32, i: int)
    requires
        0 <= i < candidates.len(),
    ensures
        exists|g: int|
            0 <= g < clustered(candidates, threshold).len() && (#[trigger] clustered(
                candidates,
                threshold,
            )[g]).contains(candidates[i]),
        clustered(candidates, threshold)[0][0] == candidates[0],
        ones(candidates[0].hash ^ candidates[i].hash, 64) <= threshold ==> clustered(
            candidates,
            threshold,
        )[0].contains(candidates[i]),
    decreases candidates.len(),
{
    let t = candidates.drop_last();
    let before = clustered(t, threshold);
    let r = clustered(candidates, threshold);
    let c = candidates.last();
    lemma_close_cluster(before, c.hash, threshold, 0);
    law_clusters_are_close(t, threshold);
    if candidates.len() == 1 {
        assert(before.len() == 0);
        assert(r[0] =~= seq![c]);
        assert(r[0][0] == c);
    } else {
        law_close_pictures_join_the_first(t, threshold, 0);
        let own = choose|g: int|
            0 <= g < before.len() && (#[trigger] before[g]).contains(t[0]);
        assert(before.len() > 0);
        assert(before[0].len() > 0);
        assert(before[0].contains(before[0][0]));
        lemma_clusters_grow(candidates, threshold, 0, before[0][0]);
        if i < t.len() {
            law_close_pictures_join_the_first(t, threshold, i);
            let g = choose|g: int| 0 <= g < before.len() && (#[trigger] before[g]).contains(t[i]);
            lemma_clusters_grow(candidates, threshold, g, t[i]);
            assert(r[g].contains(candidates[i]));
            if ones(candidates[0].hash ^ candidates[i].hash, 64) <= threshold {
                lemma_clusters_grow(candidates, threshold, 0, t[i]);
            }
        } else {
            match close_cluster(before, c.hash, threshold, 0) {
                Some(g) => {
                    assert(r[g][before[g].len() as int] == c);
                    assert(r[g].contains(c));
                },
                None => {
                    assert(r[before.len() as int] =~= seq![c]);
                    assert(r[before.len() as int][0] == c);
                    assert(r[before.len() as int].contains(c));
                },
            }
            if ones(candidates[0].hash ^ c.hash, 64) <= threshold {
                assert(distance(before[0][0].hash, c.hash) <= threshold);
                assert(close_cluster(before, c.hash, threshold, 0) == Some(0int));
            }
        }
    }
}

/// Whatever looks the same is found: candidates with one hash stand in one
/// cluster, whatever the threshold.
pub proof fn law_equal_pictures_meet(candidates: Seq<Candidate>, threshold: u32, i: int, j: int)
    requires
        0 <= i < j < candidates.len(),
        candidates[i].hash == candidates[j].hash,
    ensures
        clustered_together(clustered(candidates, threshold), candidates[i], candidates[j]),
    decreases candidates.len(),
{
    let t = candidates.drop_last();
    let before = clustered(t, threshold);
    let r = clustered(candidates, threshold);
    let c = candidates.last();
    if j < t.len() {
        law_equal_pictures_meet(t, threshold, i, j);
        let g = choose|g: int|
            0 <= g < before.len() && (#[trigger] before[g]).contains(t[i]) && before[g].contains(
                t[j],
            );
        lemma_clusters_grow(candidates, threshold, g, t[i]);
        lemma_clusters_grow(candidates, threshold, g, t[j]);
        assert(r[g].contains(candidates[i]) && r[g].contains(candidates[j]));
    } else {
        lemma_joined_cluster(t, threshold, i);
        let g = close_cluster(before, c.hash, threshold, 0)->0;
        lemma_close_cluster(before, c.hash, threshold, 0);
        assert(before[g].contains(t[i]));
        lemma_clusters_grow(candidates, threshold, g, t[i]);
        assert(r[g][before[g].len() as int] == c);
        assert(r[g].contains(candidates[i]) && r[g].contains(candidates[j]));
    }
}

/// A candidate stands in the first cluster that is close to its hash.
proof fn lemma_joined_cluster(candidates: Seq<Candidate>, threshold: u32, i: int)
    requires
        0 <= i < candidates.len(),
    ensures
        close_cluster(clustered(candidates, threshold), candidates[i].hash, threshold, 0) matches Some(
            g,
        ) && clustered(candidates, threshold)[g].contains(candidates[i]),
    decreases candidates.len(),
{
    let t = candidates.drop_last();
    let before = clustered(t, threshold);
    let r = clustered(candidates, threshold);
    let c = candidates.last();
    let h = candidates[i].hash;
    lemma_close_cluster(before, c.hash, threshold, 0);
    lemma_close_cluster(before, h, threshold, 0);
    lemma_close_cluster(r, h, threshold, 0);
    law_clusters_are_close(t, threshold);
    law_clusters_are_close(candidates, threshold);
    law_distance(h, h);
    if i < t.len() {
        lemma_joined_cluster(t, threshold, i);
        let g = close_cluster(before, h, threshold, 0)->0;
        lemma_clusters_grow(candidates, threshold, g, t[i]);
        assert forall|k: int| 0 <= k <= g implies (#[trigger] r[k])[0] == before[k][0] by {
            assert(before[k].len() > 0);
            assert(before[k].contains(before[k][0]));
            lemma_clusters_grow(candidates, threshold, k, before[k][0]);
        }
        assert(distance(r[g][0].hash, h) <= threshold);
        let found = close_cluster(r, h, threshold, 0)->0;
        if found < g {
            assert(distance(before[found][0].hash, h) > threshold);
            assert(r[found][0] == before[found][0]);
        }
        assert(found == g);
    } else {
        match close_cluster(before, h, threshold, 0) {
            Some(g) => {
                assert(r[g][before[g].len() as int] == c);
                assert forall|k: int| 0 <= k <= g implies (#[trigger] r[k])[0]
                    == before[k][0] by {
                    assert(before[k].len() > 0);
                }
                assert(distance(r[g][0].hash, h) <= threshold);
                let found = close_cluster(r, h, threshold, 0)->0;
                if found < g {
                    assert(distance(before[found][0].hash, h) > threshold);
                    assert(r[found][0] == before[found][0]);
                }
                assert(found == g);
            },
            None => {
                let n = before.len() as int;
                assert(r[n] =~= seq![c]);
                assert(r[n][0] == c);
                assert(distance(r[n][0].hash, h) == 0);
                let found = close_cluster(r, h, threshold, 0)->0;
                if found < n {
                    assert(r[found] == before[found]);
                    assert(distance(before[found][0].hash, h) > threshold);
                }
                assert(found == n);
                assert(r[n].contains(c));
            },
        }
    }
}

proof fn lemma_clusters_apart(candidates: Seq<Candidate>, threshold: u32)
    requires
        candidates.no_duplicates(),
    ensures
        group::are_apart(clustered(candidates, threshold)),
    decreases candidates.len(),
{
    if candidates.len() > 0 {
        let t = candidates.drop_last();
        let c = candidates.last();
        let before = clustered(t, threshold);
        let r = clustered(candidates, threshold);
        assert(t.no_duplicates());
        lemma_clusters_apart(t, threshold);
        lemma_close_cluster(before, c.hash, threshold, 0);
        assert forall|g: int, a: int, h: int, b: int|
            0 <= g < r.len() && 0 <= a < r[g].len() && 0 <= h < r.len() && 0 <= b < r[h].len() && (g
                != h || a != b) implies #[trigger] r[g][a] != #[trigger] r[h][b] by {
            let old_g = g < before.len() && a < before[g].len();
            let old_h = h < before.len() && b < before[h].len();
            if old_g {
                lemma_members_are_candidates(t, threshold, g, a);
                assert(r[g][a] == before[g][a]);
            } else {
                assert(r[g][a] == c);
            }
            if old_h {
                lemma_members_are_candidates(t, threshold, h, b);
                assert(r[h][b] == before[h][b]);
            } else {
                assert(r[h][b] == c);
            }
            if old_g && old_h {
                assert(before[g][a] != before[h][b]);
            } else if old_g || old_h {
                if t.contains(c) {
                    let i = choose|i: int| 0 <= i < t.len() && t[i] == c;
                    assert(candidates[i] == candidates[candidates.len() - 1]);
                }
            }
        }
    }
}

proof fn lemma_cluster_groups_apart(cluster: Seq<Candidate>, same_folder_only: bool)
    requires
        entries(cluster).no_duplicates(),
    ensures
        group::are_apart(cluster_groups(cluster, same_folder_only)),
        forall|g: int, a: int|
            0 <= g < cluster_groups(cluster, same_folder_only).len() && 0 <= a < cluster_groups(
                cluster,
                same_folder_only,
            )[g].len() ==> entries(cluster).contains(
                #[trigger] cluster_groups(cluster, same_folder_only)[g][a],
            ),
{
    let found = entries(cluster);
    let parts = if same_folder_only {
        by_parent(found)
    } else {
        seq![found]
    };
    if same_folder_only {
        let keys = parent_ids(found);
        group::lemma_option_ranking(keys);
        group::lemma_grouped_apart(found, group::option_ranking(keys));
    } else {
        assert forall|g: int, a: int, h: int, b: int|
            0 <= g < parts.len() && 0 <= a < parts[g].len() && 0 <= h < parts.len() && 0 <= b
                < parts[h].len() && (g != h || a != b) implies #[trigger] parts[g][a]
            != #[trigger] parts[h][b] by {
            assert(found[a] != found[b]);
        }
        assert forall|g: int, a: int|
            0 <= g < parts.len() && 0 <= a < parts[g].len() implies found.contains(
            #[trigger] parts[g][a],
        ) by {
            assert(parts[g][a] == found[a]);
        }
    }
    let r = cluster_groups(cluster, same_folder_only);
    if cluster.len() > 1 {
        assert forall|g: int| 0 <= g < r.len() implies (#[trigger] r[g]).no_duplicates() by {
            let part = parts[g];
            assert(part.no_duplicates()) by {
                assert forall|a: int, b: int|
                    0 <= a < part.len() && 0 <= b < part.len() && a != b implies part[a]
                    != part[b] by {
                    assert(parts[g][a] != parts[g][b]);
                }
            }
            let le = |a: MediaEntry, b: MediaEntry| original_le(a, b);
            assert(sorting::ranks(part.len() as int, |i: int, j: int| le(part[i], part[j])));
            group::lemma_sorted_once(part, le);
        }
        assert forall|g: int, a: int|
            0 <= g < r.len() && 0 <= a < r[g].len() implies parts[g].contains(#[trigger] r[g][a])
            && found.contains(r[g][a]) by {
            law_original_is_largest(parts[g]);
            assert(parts[g].contains(original_first(parts[g])[a]));
            let i = choose|i: int| 0 <= i < parts[g].len() && parts[g][i] == r[g][a];
            assert(found.contains(parts[g][i]));
        }
        group::lemma_within_apart(r, parts);
    }
}

proof fn lemma_all_cluster_groups_apart(clusters: Seq<Seq<Candidate>>, same_folder_only: bool)
    requires
        group::are_apart(clusters.map_values(|c: Seq<Candidate>| entries(c))),
    ensures
        group::are_apart(all_cluster_groups(clusters, same_folder_only)),
    decreases clusters.len(),
{
    if clusters.len() > 0 {
        let lists = clusters.map_values(|c: Seq<Candidate>| entries(c));
        let t = clusters.drop_last();
        let n = clusters.len() - 1;
        let before = all_cluster_groups(t, same_folder_only);
        let own = cluster_groups(clusters[n], same_folder_only);
        let shorter = t.map_values(|c: Seq<Candidate>| entries(c));
        assert(group::are_apart(shorter)) by {
            assert forall|g: int, a: int, h: int, b: int|
                0 <= g < shorter.len() && 0 <= a < shorter[g].len() && 0 <= h < shorter.len() && 0
                    <= b < shorter[h].len() && (g != h || a != b) implies #[trigger] shorter[g][a]
                != #[trigger] shorter[h][b] by {
                assert(lists[g][a] != lists[h][b]);
            }
        }
        lemma_all_cluster_groups_apart(t, same_folder_only);
        assert forall|i: int| 0 <= i < clusters.len() implies entries(
            #[trigger] clusters[i],
        ).no_duplicates() by {
            assert forall|a: int, b: int|
                0 <= a < clusters[i].len() && 0 <= b < clusters[i].len() && a != b implies entries(
                clusters[i],
            )[a] != entries(clusters[i])[b] by {
                assert(lists[i][a] != lists[i][b]);
            }
        }
        lemma_cluster_groups_apart(clusters[n], same_folder_only);
        assert forall|g: int, a: int, h: int, b: int|
            0 <= g < before.len() && 0 <= a < before[g].len() && 0 <= h < own.len() && 0 <= b
                < own[h].len() implies #[trigger] before[g][a] != #[trigger] own[h][b] by {
            lemma_all_cluster_groups(t, same_folder_only, g);
            let (i, k) = choose|i: int, k: int|
                0 <= i < t.len() && 0 <= k < cluster_groups(t[i], same_folder_only).len()
                    && before[g] == #[trigger] cluster_groups(t[i], same_folder_only)[k];
            assert(t[i] == clusters[i]);
            lemma_cluster_groups_apart(clusters[i], same_folder_only);
            assert(entries(clusters[i]).contains(
                cluster_groups(clusters[i], same_folder_only)[k][a],
            ));
            assert(entries(clusters[n]).contains(own[h][b]));
            let u = choose|u: int| 0 <= u < lists[i].len() && lists[i][u] == before[g][a];
            let v = choose|v: int| 0 <= v < lists[n].len() && lists[n][v] == own[h][b];
            assert(lists[i][u] != lists[n][v]);
        }
        group::lemma_apart_concat(before, own);
    }
}

/// No file stands twice in the results of a scan for similar media, neither in
/// one group nor in two.
pub proof fn law_no_media_stand_twice(
    candidates: Seq<Candidate>,
    threshold: u32,
    same_folder_only: bool,
)
    requires
        entries(candidates).no_duplicates(),
    ensures
        group::are_apart(
            all_cluster_groups(clustered(candidates, threshold), same_folder_only),
        ),
{
    let clusters = clustered(candidates, threshold);
    let lists = clusters.map_values(|c: Seq<Candidate>| entries(c));
    assert(candidates.no_duplicates()) by {
        assert forall|i: int, j: int|
            0 <= i < candidates.len() && 0 <= j < candidates.len() && i != j implies candidates[i]
            != candidates[j] by {
            assert(entries(candidates)[i] != entries(candidates)[j]);
        }
    }
    lemma_clusters_apart(candidates, threshold);
    assert forall|g: int, a: int, h: int, b: int|
        0 <= g < lists.len() && 0 <= a < lists[g].len() && 0 <= h < lists.len() && 0 <= b
            < lists[h].len() && (g != h || a != b) implies #[trigger] lists[g][a]
        != #[trigger] lists[h][b] by {
        assert(clusters[g][a] != clusters[h][b]);
        lemma_members_are_candidates(candidates, threshold, g, a);
        lemma_members_are_candidates(candidates, threshold, h, b);
        let i = choose|i: int| 0 <= i < candidates.len() && candidates[i] == clusters[g][a];
        let j = choose|j: int| 0 <= j < candidates.len() && candidates[j] == clusters[h][b];
        assert(entries(candidates)[i] != entries(candidates)[j]);
    }
    lemma_all_cluster_groups_apart(clusters, same_folder_only);
}

/// The groups of media files that look alike, given the candidates with their
/// perceptual hashes.
pub fn run_similarity_scan(
    candidates: Vec<Candidate>,
    threshold: u32,
    same_folder_only: bool,
) -> (r: Vec<SimilarGroup>)
    ensures
        similar_lists(r@) == all_cluster_groups(
            clustered(candidates@, threshold),
            same_folder_only,
        ),
{
    let clusters = cluster_by_similarity(candidates, threshold);
    let ghost all = model::nested(clusters@);
    let mut out: Vec<SimilarGroup> = Vec::new();
    for cluster in it: clusters
        invariant
            it.seq() == clusters@,
            all == model::nested(clusters@),
            similar_lists(out@) =~= all_cluster_groups(all.take(it.index()), same_folder_only),
    {
        assert(all.take(it.index() + 1).drop_last() =~= all.take(it.index()));
        assert(all[it.index()] == cluster@);
        let ghost done = similar_lists(out@);
        if cluster.len() > 1 {
            let mut files: Vec<MediaEntry> = Vec::new();
            let mut k: usize = 0;
            while k < cluster.len()
                invariant
                    k <= cluster@.len(),
                    files@ =~= entries(cluster@).take(k as int),
                decreases cluster@.len() - k,
            {
                files.push(cluster[k].entry.clone());
                k = k + 1;
            }
            assert(files@ =~= entries(cluster@));
            let ghost found = files@;
            let lists: Vec<Vec<MediaEntry>> = if same_folder_only {
                split_by_parent(files)
            } else {
                let mut one: Vec<Vec<MediaEntry>> = Vec::new();
                one.push(files);
                assert(model::nested(one@) =~= seq![found]);
                one
            };
            let ghost parts = model::nested(lists@);
            let ghost made = cluster_groups(cluster@, same_folder_only);
            assert(done + made.take(0) =~= done);
            for l in jt: lists
                invariant
                    jt.seq() == lists@,
                    parts == model::nested(lists@),
                    made.len() == parts.len(),
                    forall|a: int|
                        0 <= a < parts.len() ==> #[trigger] made[a] == original_first(parts[a]),
                    similar_lists(out@) =~= done + made.take(jt.index()),
            {
                let ghost before = similar_lists(out@);
                let mut l: Vec<MediaEntry> = l;
                assert(parts[jt.index()] == l@);
                sort_group_original(&mut l);
                out.push(SimilarGroup { files: l });
                assert(made[jt.index()] == l@);
                assert(similar_lists(out@) =~= before.push(l@));
                assert(made.take(jt.index() + 1) =~= made.take(jt.index()).push(
                    made[jt.index()],
                ));
            }
            assert(made.take(made.len() as int) =~= made);
        } else {
            assert(done + cluster_groups(cluster@, same_folder_only) =~= done);
        }
    }
    assert(all.take(all.len() as int) =~= all);
    out
}

} // verus!
