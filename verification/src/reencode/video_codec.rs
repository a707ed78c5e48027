//! Re-encoding videos with ffmpeg.
//!
//! Running ffmpeg and ffprobe is up to the caller; what they are told and what
//! their output means is decided here.

use crate::paths;
use crate::scanner::similarity;
use crate::text;
use vstd::prelude::*;
use vstd::slice::slice_subrange;

verus! {

/// How videos are treated by a re-encode run.
#[derive(Clone, Copy, Debug, PartialEq, Eq, Structural)]
pub enum VideoMode {
    /// Leave videos alone.
    Skip,
    /// Only videos stored in a lossless/uncompressed codec (raw, HuffYUV,
    /// UtVideo, ...), re-encoded to FFV1: bit-exact and much smaller.
    /// Already-compressed video is skipped, since losslessly re-encoding it
    /// would make it bigger.
    LosslessOnly,
    /// Re-encode everything not already in a modern codec to H.265 at a
    /// quality indistinguishable to the eye. Not bit-exact.
    VisuallyLossless,
}

impl VideoMode {
    /// How the mode is shown.
    pub fn label(self) -> (r: &'static str)
        ensures
            r@ == match self {
                VideoMode::Skip => "Skip videos"@,
                VideoMode::LosslessOnly => "Lossless only (FFV1)"@,
                VideoMode::VisuallyLossless => "Visually lossless (H.265, not bit-exact)"@,
            },
    {
        match self {
            VideoMode::Skip => "Skip videos",
            VideoMode::LosslessOnly => "Lossless only (FFV1)",
            VideoMode::VisuallyLossless => "Visually lossless (H.265, not bit-exact)",
        }
    }
}

/// Whether the path's extension is that of a video.
pub fn is_video(path: &str) -> (r: bool)
    ensures
        r == similarity::is_video(path@),
{
    similarity::is_video_path(path)
}

/// Video codecs that store frames losslessly; re-encoding them to FFV1
/// keeps every pixel while typically saving a lot of space.
pub open spec fn stores_losslessly(codec: Seq<char>) -> bool {
    ||| codec == "rawvideo"@ || codec == "huffyuv"@ || codec == "ffvhuff"@ || codec == "utvideo"@
    ||| codec == "magicyuv"@ || codec == "r210"@ || codec == "v210"@ || codec == "v410"@
    ||| codec == "png"@ || codec == "qtrle"@ || codec == "zlib"@ || codec == "lagarith"@
    ||| codec == "rpza"@ || codec == "bmp"@ || codec == "tiff"@
}

/// Decides [`stores_losslessly`].
pub fn is_lossless_codec(codec: &str) -> (r: bool)
    ensures
        r == stores_losslessly(codec@),
{
    text::text_eq(codec, "rawvideo") || text::text_eq(codec, "huffyuv") || text::text_eq(
        codec,
        "ffvhuff",
    ) || text::text_eq(codec, "utvideo") || text::text_eq(codec, "magicyuv") || text::text_eq(
        codec,
        "r210",
    ) || text::text_eq(codec, "v210") || text::text_eq(codec, "v410") || text::text_eq(codec, "png")
        || text::text_eq(codec, "qtrle") || text::text_eq(codec, "zlib") || text::text_eq(
        codec,
        "lagarith",
    ) || text::text_eq(codec, "rpza") || text::text_eq(codec, "bmp") || text::text_eq(codec, "tiff")
}

/// Codecs already efficient enough that another lossy pass isn't worth it.
pub open spec fn is_modern(codec: Seq<char>) -> bool {
    codec == "hevc"@ || codec == "av1"@ || codec == "vp9"@ || codec == "ffv1"@
}

/// Decides [`is_modern`].
pub fn is_modern_codec(codec: &str) -> (r: bool)
    ensures
        r == is_modern(codec@),
{
    text::text_eq(codec, "hevc") || text::text_eq(codec, "av1") || text::text_eq(codec, "vp9")
        || text::text_eq(codec, "ffv1")
}

/// The words of a command line.
pub open spec fn words(args: Seq<&'static str>) -> Seq<Seq<char>> {
    args.map_values(|a: &'static str| a@)
}

/// What ffmpeg is told to re-encode to FFV1.
pub open spec fn ffv1_args() -> Seq<Seq<char>> {
    seq![
        "-map"@,
        "0"@,
        "-c"@,
        "copy"@,
        "-c:v"@,
        "ffv1"@,
        "-level"@,
        "3"@,
        "-g"@,
        "1"@,
        "-slicecrc"@,
        "1"@,
        "-c:a"@,
        "flac"@,
    ]
}

/// What ffmpeg is told to re-encode to H.265.
pub open spec fn hevc_args() -> Seq<Seq<char>> {
    seq![
        "-map"@,
        "0:v:0"@,
        "-map"@,
        "0:a?"@,
        "-c:v"@,
        "libx265"@,
        "-crf"@,
        "20"@,
        "-preset"@,
        "medium"@,
        "-tag:v"@,
        "hvc1"@,
        "-c:a"@,
        "copy"@,
    ]
}

/// What becomes of a video under a mode: what ffmpeg is told and the extension
/// of the new file, or why it's skipped.
pub open spec fn video_plan(path: Seq<char>, codec: Seq<char>, mode: VideoMode) -> Result<
    (Seq<Seq<char>>, Seq<char>),
    Seq<char>,
> {
    match mode {
        VideoMode::Skip => Err("videos are skipped"@),
        VideoMode::LosslessOnly => if stores_losslessly(codec) {
            Ok((ffv1_args(), "mkv"@))
        } else {
            Err(
                "already compressed ("@ + codec + "); a lossless re-encode would be larger"@,
            )
        },
        VideoMode::VisuallyLossless => if is_modern(codec) {
            Err("already in an efficient codec ("@ + codec + ")"@)
        } else {
            Ok(
                (
                    hevc_args(),
                    match paths::lower_extension(path) {
                        Some(e) => if e == "mp4"@ || e == "m4v"@ || e == "mov"@ {
                            "mp4"@
                        } else {
                            "mkv"@
                        },
                        None => "mkv"@,
                    },
                ),
            )
        },
    }
}

/// What to do with one video under `mode`: the ffmpeg arguments and output
/// extension, or why it's skipped.
pub fn plan(path: &str, codec: &str, mode: VideoMode) -> (r: Result<
    (Vec<&'static str>, &'static str),
    String,
>)
    ensures
        match video_plan(path@, codec@, mode) {
            Ok((args, ext)) => r matches Ok((a, e)) && words(a@) == args && e@ == ext,
            Err(e) => r matches Err(m) && m@ == e,
        },
{
    match mode {
        VideoMode::Skip => Err("videos are skipped".to_owned()),
        VideoMode::LosslessOnly => if is_lossless_codec(codec) {
            let args: Vec<&'static str> = vec![
                "-map",
                "0",
                "-c",
                "copy",
                "-c:v",
                "ffv1",
                "-level",
                "3",
                "-g",
                "1",
                "-slicecrc",
                "1",
                "-c:a",
                "flac",
            ];
            assert(words(args@) =~= ffv1_args());
            Ok((args, "mkv"))
        } else {
            Err(
                "already compressed (".to_owned().concat(codec).concat(
                    "); a lossless re-encode would be larger",
                ),
            )
        },
        VideoMode::VisuallyLossless => if is_modern_codec(codec) {
            Err("already in an efficient codec (".to_owned().concat(codec).concat(")"))
        } else {
            let mp4: bool = match paths::lower_extension_of(path) {
                Some(e) => text::text_eq(e.as_str(), "mp4") || text::text_eq(e.as_str(), "m4v")
                    || text::text_eq(e.as_str(), "mov"),
                None => false,
            };
            let args: Vec<&'static str> = vec![
                "-map",
                "0:v:0",
                "-map",
                "0:a?",
                "-c:v",
                "libx265",
                "-crf",
                "20",
                "-preset",
                "medium",
                "-tag:v",
                "hvc1",
                "-c:a",
                "copy",
            ];
            assert(words(args@) =~= hevc_args());
            if mp4 {
                Ok((args, "mp4"))
            } else {
                Ok((args, "mkv"))
            }
        },
    }
}

/// In lossless mode only videos stored losslessly are re-encoded, and none is
/// in skip mode; in visually lossless mode all but those in a modern codec are.
pub proof fn law_modes_choose_by_codec(path: Seq<char>, codec: Seq<char>)
    ensures
        video_plan(path, codec, VideoMode::Skip) is Err,
        video_plan(path, codec, VideoMode::LosslessOnly) is Ok <==> stores_losslessly(codec),
        video_plan(path, codec, VideoMode::VisuallyLossless) is Ok <==> !is_modern(codec),
{
}

/// Whether ffmpeg is told `value` for the option `key`: the one stands right
/// behind the other.
pub open spec fn tells(args: Seq<Seq<char>>, key: Seq<char>, value: Seq<char>) -> bool {
    exists|i: int| 0 <= i < args.len() - 1 && #[trigger] args[i] == key && args[i + 1] == value
}

/// A video that is re-encoded keeps its sound: all of its streams, or its first
/// video stream and every audio stream, go into the new file. In lossless mode
/// the audio is FLAC, in visually lossless mode it is copied.
pub proof fn law_reencoded_videos_keep_their_sound(
    path: Seq<char>,
    codec: Seq<char>,
    mode: VideoMode,
)
    requires
        video_plan(path, codec, mode) is Ok,
    ensures
        ({
            let (args, ext) = video_plan(path, codec, mode)->Ok_0;
            &&& mode is LosslessOnly || mode is VisuallyLossless
            &&& mode is LosslessOnly ==> tells(args, "-map"@, "0"@) && tells(
                args,
                "-c:a"@,
                "flac"@,
            )
            &&& mode is VisuallyLossless ==> tells(args, "-map"@, "0:v:0"@) && tells(
                args,
                "-map"@,
                "0:a?"@,
            ) && tells(args, "-c:a"@, "copy"@)
        }),
{
    let (args, _) = video_plan(path, codec, mode)->Ok_0;
    if mode is LosslessOnly {
        assert(args[0] == "-map"@ && args[1] == "0"@);
        assert(args[12] == "-c:a"@ && args[13] == "flac"@);
    } else {
        assert(args[0] == "-map"@ && args[1] == "0:v:0"@);
        assert(args[2] == "-map"@ && args[3] == "0:a?"@);
        assert(args[12] == "-c:a"@ && args[13] == "copy"@);
    }
}

/// The picture of a re-encoded video: in lossless mode FFV1 with checksums, in
/// Matroska, everything else but the audio copied; in visually lossless mode
/// H.265 at constant rate factor 20, in MP4 if it was in a container of that
/// family and in Matroska otherwise.
pub proof fn law_reencoded_videos_look_the_same(
    path: Seq<char>,
    codec: Seq<char>,
    mode: VideoMode,
)
    requires
        video_plan(path, codec, mode) is Ok,
    ensures
        ({
            let (args, ext) = video_plan(path, codec, mode)->Ok_0;
            let own = paths::lower_extension(path);
            &&& mode is LosslessOnly ==> tells(args, "-c:v"@, "ffv1"@) && tells(
                args,
                "-c"@,
                "copy"@,
            ) && tells(args, "-level"@, "3"@) && tells(args, "-slicecrc"@, "1"@) && tells(
                args,
                "-g"@,
                "1"@,
            ) && ext == "mkv"@
            &&& mode is VisuallyLossless ==> tells(args, "-c:v"@, "libx265"@) && tells(
                args,
                "-crf"@,
                "20"@,
            ) && tells(args, "-preset"@, "medium"@) && tells(args, "-tag:v"@, "hvc1"@) && ext == (
            if own == Some("mp4"@) || own == Some("m4v"@) || own == Some("mov"@) {
                "mp4"@
            } else {
                "mkv"@
            })
        }),
{
    let (args, _) = video_plan(path, codec, mode)->Ok_0;
    if mode is LosslessOnly {
        assert(args[2] == "-c"@ && args[3] == "copy"@);
        assert(args[4] == "-c:v"@ && args[5] == "ffv1"@);
        assert(args[6] == "-level"@ && args[7] == "3"@);
        assert(args[8] == "-g"@ && args[9] == "1"@);
        assert(args[10] == "-slicecrc"@ && args[11] == "1"@);
    } else {
        assert(args[4] == "-c:v"@ && args[5] == "libx265"@);
        assert(args[6] == "-crf"@ && args[7] == "20"@);
        assert(args[8] == "-preset"@ && args[9] == "medium"@);
        assert(args[10] == "-tag:v"@ && args[11] == "hvc1"@);
    }
}

/// Which videos a mode takes, by the codec that they are stored in: in lossless
/// mode only those of a lossless codec, in visually lossless mode all but those
/// of an efficient one. Why another is skipped names its codec.
pub proof fn law_videos_are_taken_by_codec(path: Seq<char>, codec: Seq<char>)
    ensures
        video_plan(path, codec, VideoMode::Skip) == Err::<(Seq<Seq<char>>, Seq<char>), Seq<char>>(
            "videos are skipped"@,
        ),
        video_plan(path, codec, VideoMode::LosslessOnly) is Ok <==> seq![
            "rawvideo"@,
            "huffyuv"@,
            "ffvhuff"@,
            "utvideo"@,
            "magicyuv"@,
            "r210"@,
            "v210"@,
            "v410"@,
            "png"@,
            "qtrle"@,
            "zlib"@,
            "lagarith"@,
            "rpza"@,
            "bmp"@,
            "tiff"@,
        ].contains(codec),
        video_plan(path, codec, VideoMode::VisuallyLossless) is Ok <==> !seq![
            "hevc"@,
            "av1"@,
            "vp9"@,
            "ffv1"@,
        ].contains(codec),
        video_plan(path, codec, VideoMode::LosslessOnly) matches Err(m) ==> m
            == "already compressed ("@ + codec + "); a lossless re-encode would be larger"@,
        video_plan(path, codec, VideoMode::VisuallyLossless) matches Err(m) ==> m
            == "already in an efficient codec ("@ + codec + ")"@,
{
    let lossless = seq![
        "rawvideo"@,
        "huffyuv"@,
        "ffvhuff"@,
        "utvideo"@,
        "magicyuv"@,
        "r210"@,
        "v210"@,
        "v410"@,
        "png"@,
        "qtrle"@,
        "zlib"@,
        "lagarith"@,
        "rpza"@,
        "bmp"@,
        "tiff"@,
    ];
    let modern = seq!["hevc"@, "av1"@, "vp9"@, "ffv1"@];
    assert(lossless[0] == "rawvideo"@ && lossless[1] == "huffyuv"@ && lossless[2] == "ffvhuff"@
        && lossless[3] == "utvideo"@ && lossless[4] == "magicyuv"@ && lossless[5] == "r210"@
        && lossless[6] == "v210"@ && lossless[7] == "v410"@ && lossless[8] == "png"@ && lossless[9]
        == "qtrle"@ && lossless[10] == "zlib"@ && lossless[11] == "lagarith"@ && lossless[12]
        == "rpza"@ && lossless[13] == "bmp"@ && lossless[14] == "tiff"@);
    assert(modern[0] == "hevc"@ && modern[1] == "av1"@ && modern[2] == "vp9"@ && modern[3]
        == "ffv1"@);
}

/// The first line that begins with `key`, without it and trimmed.
pub open spec fn field(lines: Seq<Seq<char>>, key: Seq<char>) -> Option<Seq<char>>
    decreases lines.len(),
{
    if lines.len() == 0 {
        None
    } else if text::has_prefix(lines[0], key) {
        Some(text::trim(lines[0].skip(key.len() as int)))
    } else {
        field(lines.skip(1), key)
    }
}

fn find_field(lines: &Vec<Vec<char>>, key: &[char]) -> (r: Option<String>)
    ensures
        match field(lines@.map_values(|v: Vec<char>| v@), key@) {
            Some(t) => r matches Some(f) && f@ == t,
            None => r is None,
        },
{
    let ghost all = lines@.map_values(|v: Vec<char>| v@);
    let mut i: usize = 0;
    assert(all.skip(0) =~= all);
    while i < lines.len()
        invariant
            i <= lines@.len(),
            all == lines@.map_values(|v: Vec<char>| v@),
            field(all, key@) == field(all.skip(i as int), key@),
        decreases lines@.len() - i,
    {
        assert(all.skip(i as int)[0] == lines@[i as int]@);
        assert(all.skip(i as int).skip(1) =~= all.skip(i + 1));
        let line: &[char] = lines[i].as_slice();
        if text::starts_with(line, key) {
            let rest: &[char] = slice_subrange(line, key.len(), line.len());
            assert(rest@ =~= line@.skip(key@.len() as int));
            return Some(text::from_chars(text::trimmed(rest)));
        }
        i = i + 1;
    }
    None
}

/// How running ffprobe went.
#[derive(Debug, PartialEq)]
pub enum ProbeRun {
    /// It couldn't be run.
    NotRun(String),
    /// It reported failure.
    Failed,
    /// What it printed.
    Printed(String),
}

/// What ffprobe prints of a video: its codec, and its duration in seconds if it
/// gives one.
#[derive(Debug, PartialEq)]
pub struct ProbeFields {
    pub codec: String,
    pub duration: Option<String>,
}

/// Reads off what ffprobe was asked for, or why it can't be.
pub fn read_probe(run: ProbeRun) -> (r: Result<ProbeFields, String>)
    ensures
        match run {
            ProbeRun::NotRun(e) => r matches Err(m) && m@ == "couldn't run ffprobe: "@ + e@,
            ProbeRun::Failed => r matches Err(m) && m@ == "ffprobe couldn't read it"@,
            ProbeRun::Printed(out) => match field(text::lines(out@), "codec_name="@) {
                None => r matches Err(m) && m@ == "no video stream"@,
                Some(codec) => {
                    &&& r matches Ok(f)
                    &&& f.codec@ == codec
                    &&& match field(text::lines(out@), "duration="@) {
                        Some(d) => f.duration matches Some(t) && t@ == d,
                        None => f.duration is None,
                    }
                },
            },
        },
{
    match run {
        ProbeRun::NotRun(e) => Err("couldn't run ffprobe: ".to_owned().concat(e.as_str())),
        ProbeRun::Failed => Err("ffprobe couldn't read it".to_owned()),
        ProbeRun::Printed(out) => {
            let lines = text::split_lines(text::to_chars(out.as_str()).as_slice());
            let codec = find_field(&lines, text::to_chars("codec_name=").as_slice());
            let duration = find_field(&lines, text::to_chars("duration=").as_slice());
            match codec {
                Some(codec) => Ok(ProbeFields { codec, duration }),
                None => Err("no video stream".to_owned()),
            }
        },
    }
}

/// What is known of a video.
#[derive(Debug, PartialEq)]
pub struct Probe {
    pub codec: String,
    /// Its duration in microseconds.
    pub duration: Option<u64>,
}

/// A video that a mode will re-encode: what ffmpeg is told and the output
/// extension.
#[derive(Debug, PartialEq)]
pub struct PreparedVideo {
    pub args: Vec<&'static str>,
    pub ext: &'static str,
    pub duration: Option<u64>,
}

/// Decides what `mode` does with a video, given what is known of it, or why
/// it's skipped. In skip mode nothing need be known.
pub fn prepare(path: &str, mode: VideoMode, probe: Result<Probe, String>) -> (r: Result<
    PreparedVideo,
    String,
>)
    ensures
        mode is Skip ==> (r matches Err(m) && m@ == "videos are skipped"@),
        !(mode is Skip) ==> match probe {
            Err(e) => r == Err::<PreparedVideo, String>(e),
            Ok(p) => match video_plan(path@, p.codec@, mode) {
                Ok((args, ext)) => r matches Ok(v) && words(v.args@) == args && v.ext@ == ext
                    && v.duration == p.duration,
                Err(e) => r matches Err(m) && m@ == e,
            },
        },
{
    if mode == VideoMode::Skip {
        return Err("videos are skipped".to_owned());
    }
    match probe {
        Err(e) => Err(e),
        Ok(p) => match plan(path, p.codec.as_str(), mode) {
            Ok((args, ext)) => Ok(PreparedVideo { args, ext, duration: p.duration }),
            Err(e) => Err(e),
        },
    }
}

/// What ffmpeg is told before the source.
pub fn leading_args() -> (r: Vec<&'static str>)
    ensures
        words(r@) == seq![
            "-hide_banner"@,
            "-nostdin"@,
            "-loglevel"@,
            "error"@,
            "-y"@,
            "-i"@,
        ],
{
    let args: Vec<&'static str> = vec![
        "-hide_banner",
        "-nostdin",
        "-loglevel",
        "error",
        "-y",
        "-i",
    ];
    assert(words(args@) =~= seq![
        "-hide_banner"@,
        "-nostdin"@,
        "-loglevel"@,
        "error"@,
        "-y"@,
        "-i"@,
    ]);
    args
}

/// What ffmpeg is told before the new file, so that it reports progress.
pub fn progress_args() -> (r: Vec<&'static str>)
    ensures
        words(r@) == seq!["-progress"@, "pipe:1"@, "-nostats"@],
{
    let args: Vec<&'static str> = vec!["-progress", "pipe:1", "-nostats"];
    assert(words(args@) =~= seq!["-progress"@, "pipe:1"@, "-nostats"@]);
    args
}

/// What ffprobe is told before the video.
pub fn probe_args() -> (r: Vec<&'static str>)
    ensures
        words(r@) == seq![
            "-v"@,
            "error"@,
            "-select_streams"@,
            "v:0"@,
            "-show_entries"@,
            "stream=codec_name:format=duration"@,
            "-of"@,
            "default=noprint_wrappers=1"@,
        ],
{
    let args: Vec<&'static str> = vec![
        "-v",
        "error",
        "-select_streams",
        "v:0",
        "-show_entries",
        "stream=codec_name:format=duration",
        "-of",
        "default=noprint_wrappers=1",
    ];
    assert(words(args@) =~= seq![
        "-v"@,
        "error"@,
        "-select_streams"@,
        "v:0"@,
        "-show_entries"@,
        "stream=codec_name:format=duration"@,
        "-of"@,
        "default=noprint_wrappers=1"@,
    ]);
    args
}

/// The time a line of ffmpeg's progress report gives, in microseconds.
pub open spec fn reported_time(line: Seq<char>) -> Option<u64> {
    if text::has_prefix(line, "out_time_us="@) {
        text::parsed_number(line.skip("out_time_us="@.len() as int))
    } else {
        None
    }
}

/// Reads the time off a line of ffmpeg's progress report: ffmpeg reports
/// `out_time_us=<microseconds>` lines.
pub fn read_progress(line: &str) -> (r: Option<u64>)
    ensures
        r == reported_time(line@),
{
    let line = text::to_chars(line);
    let key = text::to_chars("out_time_us=");
    if text::starts_with(line.as_slice(), key.as_slice()) {
        let rest: &[char] = slice_subrange(line.as_slice(), key.len(), line.len());
        assert(rest@ =~= line@.skip(key@.len() as int));
        text::parse_number(rest)
    } else {
        None
    }
}

/// How running ffmpeg went.
#[derive(Debug, PartialEq)]
pub enum VideoRun {
    /// It couldn't be run.
    NotRun(String),
    /// It was stopped since the job was cancelled.
    Cancelled,
    /// It can't be told whether it is done.
    Lost(String),
    /// It ended, having written this to its error output.
    Ended { success: bool, errors: String },
}

/// The first line that isn't blank.
pub open spec fn first_filled(lines: Seq<Seq<char>>) -> Option<Seq<char>>
    decreases lines.len(),
{
    if lines.len() == 0 {
        None
    } else if text::trim(lines[0]).len() > 0 {
        Some(lines[0])
    } else {
        first_filled(lines.skip(1))
    }
}

fn first_error(errors: &str) -> (r: String)
    ensures
        r@ == (match first_filled(text::lines(errors@)) {
            Some(l) => l,
            None => "ffmpeg failed"@,
        }),
{
    let lines = text::split_lines(text::to_chars(errors).as_slice());
    let ghost all = lines@.map_values(|v: Vec<char>| v@);
    let mut i: usize = 0;
    assert(all.skip(0) =~= all);
    while i < lines.len()
        invariant
            i <= lines@.len(),
            all == lines@.map_values(|v: Vec<char>| v@),
            all == text::lines(errors@),
            first_filled(all) == first_filled(all.skip(i as int)),
        decreases lines@.len() - i,
    {
        assert(all.skip(i as int)[0] == lines@[i as int]@);
        assert(all.skip(i as int).skip(1) =~= all.skip(i + 1));
        if text::trimmed(lines[i].as_slice()).len() > 0 {
            return text::from_chars(lines[i].as_slice());
        }
        i = i + 1;
    }
    "ffmpeg failed".to_owned()
}

impl VideoRun {
    /// Whether what was written of the new file is to be removed.
    pub fn discards_output(&self) -> (r: bool)
        ensures
            r == (match *self {
                VideoRun::Cancelled => true,
                VideoRun::Ended { success, .. } => !success,
                _ => false,
            }),
    {
        match self {
            VideoRun::Cancelled => true,
            VideoRun::Ended { success, .. } => !*success,
            _ => false,
        }
    }
}

/// What encoding a video has come to: whether it went through or was
/// cancelled, or why it failed.
pub fn reencode_video(run: VideoRun) -> (r: Result<bool, String>)
    ensures
        match run {
            VideoRun::NotRun(e) => r matches Err(m) && m@ == "couldn't run ffmpeg: "@ + e@,
            VideoRun::Cancelled => r == Ok::<bool, String>(false),
            VideoRun::Lost(e) => r == Err::<bool, String>(e),
            VideoRun::Ended { success, errors } => if success {
                r == Ok::<bool, String>(true)
            } else {
                r matches Err(m) && m@ == (match first_filled(text::lines(errors@)) {
                    Some(l) => l,
                    None => "ffmpeg failed"@,
                })
            },
        },
{
    match run {
        VideoRun::NotRun(e) => Err("couldn't run ffmpeg: ".to_owned().concat(e.as_str())),
        VideoRun::Cancelled => Ok(false),
        VideoRun::Lost(e) => Err(e),
        VideoRun::Ended { success, errors } => if success {
            Ok(true)
        } else {
            Err(first_error(errors.as_str()))
        },
    }
}

/// What a program reports of a key is what follows it on the first line that begins
/// with it, without white space at the ends.
pub proof fn law_reports_are_read_by_key(
    lines: Seq<Seq<char>>,
    line: Seq<char>,
    key: Seq<char>,
    value: Seq<char>,
)
    ensures
        field(Seq::<Seq<char>>::empty(), key) is None,
        field(seq![key + value] + lines, key) == Some(text::trim(value)),
        line.len() < key.len() || line.take(key.len() as int) != key ==> field(
            seq![line] + lines,
            key,
        ) == field(lines, key),
{
    let a = seq![key + value] + lines;
    assert(a[0] == key + value);
    assert((key + value).subrange(0, key.len() as int) =~= key);
    assert((key + value).skip(key.len() as int) =~= value);
    let b = seq![line] + lines;
    assert(b[0] == line);
    assert(b.skip(1) =~= lines);
    if line.len() >= key.len() {
        assert(line.subrange(0, key.len() as int) =~= line.take(key.len() as int));
    }
}

/// ffmpeg's progress is the number of microseconds behind `out_time_us=`; no other
/// line tells it.
pub proof fn law_progress_is_read_off(line: Seq<char>, n: u64)
    ensures
        reported_time("out_time_us="@ + text::decimal(n as nat)) == Some(n),
        line.len() < "out_time_us="@.len() || line.take("out_time_us="@.len() as int)
            != "out_time_us="@ ==> reported_time(line) is None,
{
    let key = "out_time_us="@;
    let s = key + text::decimal(n as nat);
    assert(s.subrange(0, key.len() as int) =~= key);
    assert(s.skip(key.len() as int) =~= text::decimal(n as nat));
    text::law_written_numbers_are_read_back(n, s);
    if line.len() >= key.len() {
        assert(line.subrange(0, key.len() as int) =~= line.take(key.len() as int));
    }
}

/// What went wrong is what the first line says that is not blank.
pub proof fn law_errors_are_told_by_the_first_line(lines: Seq<Seq<char>>, line: Seq<char>)
    ensures
        first_filled(Seq::<Seq<char>>::empty()) is None,
        text::trim(line).len() > 0 ==> first_filled(seq![line] + lines) == Some(line),
        text::trim(line).len() == 0 ==> first_filled(seq![line] + lines) == first_filled(lines),
{
    let b = seq![line] + lines;
    assert(b[0] == line);
    assert(b.skip(1) =~= lines);
}

/// ffmpeg is told nothing else of a video: seven pairs of words, so that nothing of it
/// is cut, dropped or filtered.
pub proof fn law_nothing_else_is_told(path: Seq<char>, codec: Seq<char>, mode: VideoMode)
    requires
        video_plan(path, codec, mode) is Ok,
    ensures
        ({
            let (args, _) = video_plan(path, codec, mode)->Ok_0;
            &&& args.len() == 14
            &&& mode is LosslessOnly ==> args == seq![
                "-map"@,
                "0"@,
                "-c"@,
                "copy"@,
                "-c:v"@,
                "ffv1"@,
                "-level"@,
                "3"@,
                "-g"@,
                "1"@,
                "-slicecrc"@,
                "1"@,
                "-c:a"@,
                "flac"@,
            ]
            &&& mode is VisuallyLossless ==> args == seq![
                "-map"@,
                "0:v:0"@,
                "-map"@,
                "0:a?"@,
                "-c:v"@,
                "libx265"@,
                "-crf"@,
                "20"@,
                "-preset"@,
                "medium"@,
                "-tag:v"@,
                "hvc1"@,
                "-c:a"@,
                "copy"@,
            ]
        }),
{
}

} // verus!
