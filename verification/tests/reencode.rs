use dupe_rs::reencode::image_codec::{
    accept_reencoded, describe_refusal, is_reencodable_image, reencode_image, same_pixels,
    find_format, uses_webp, ImageTarget,
};
use dupe_rs::picture::{fits_limit, Picture, Refusal, Sampling, WEBP_METADATA_LIMIT};
use dupe_rs::reencode::video_codec::{
    is_lossless_codec, is_modern_codec, is_video, leading_args, plan, prepare, probe_args,
    progress_args, read_probe, read_progress, reencode_video, PreparedVideo, Probe, ProbeFields,
    ProbeRun, VideoMode, VideoRun,
};
use dupe_rs::reencode::worker::{
    after_move, after_trash, discover, is_temp, is_wanted, new_place, plan_swap, process_image,
    process_video, temp_place, Entry, FileResult, FileStep, OriginalHandling, Outcome,
    ReencodeEvent, ReencodeOptions, Swap,
};
use dupe_rs::reencode::{describe_run, ReencodeState, ReencodeTotals};
use image::{DynamicImage, ImageBuffer, ImageFormat, Luma, Rgb, Rgba};
use std::collections::BTreeMap;
use std::io::Cursor;

/// A BMP with plenty of flat colour: uncompressed, so re-encoding shrinks it.
fn sample_bmp() -> Vec<u8> {
    let img = ImageBuffer::from_fn(64, 48, |x, y| Rgb([(x * 4) as u8, (y * 5) as u8, 80]));
    let mut out = Cursor::new(Vec::new());
    img.write_to(&mut out, ImageFormat::Bmp).unwrap();
    out.into_inner()
}

#[test]
fn bmp_to_lossless_webp_is_smaller_and_pixel_identical() {
    let bmp = sample_bmp();
    let (bytes, ext) =
        reencode_image(r"C:\d\sample.bmp", &bmp, ImageTarget::LosslessWebp).unwrap();
    assert_eq!(ext, "webp");
    assert!(bytes.len() < bmp.len());
    let back = image::load_from_memory(&bytes).unwrap().to_rgb8();
    assert_eq!(back, image::load_from_memory(&bmp).unwrap().to_rgb8());
}

#[test]
fn sixteen_bit_images_stay_png_even_when_webp_is_requested() {
    let img: ImageBuffer<Rgba<u16>, Vec<u16>> =
        ImageBuffer::from_fn(8, 8, |x, y| Rgba([x as u16 * 1000, y as u16 * 999, 7, 65535]));
    let mut deep = Cursor::new(Vec::new());
    img.write_to(&mut deep, ImageFormat::Png).unwrap();
    let (bytes, ext) =
        reencode_image(r"C:\d\deep.png", deep.get_ref(), ImageTarget::LosslessWebp).unwrap();
    assert_eq!(ext, "png");
    assert_eq!(image::load_from_memory(&bytes).unwrap().to_rgba16(), img);
}

#[test]
fn recognises_only_lossless_formats() {
    assert!(is_reencodable_image("a.PNG"));
    assert!(is_reencodable_image("scan.tiff"));
    assert!(!is_reencodable_image("photo.jpg"));
    assert!(!is_reencodable_image("clip.webp"));
}

#[test]
fn a_png_is_written_where_it_is_asked_for() {
    let bmp = sample_bmp();
    let (bytes, ext) = reencode_image("sample.bmp", &bmp, ImageTarget::OptimizedPng).unwrap();
    assert_eq!(ext, "png");
    assert_eq!(image::guess_format(&bytes).unwrap(), ImageFormat::Png);
    assert_eq!(
        image::load_from_memory(&bytes).unwrap().to_rgb8(),
        image::load_from_memory(&bmp).unwrap().to_rgb8()
    );
    assert_eq!(ImageTarget::LosslessWebp.label(), "Lossless WebP");
    assert_eq!(ImageTarget::OptimizedPng.label(), "Max-compression PNG");
}

#[test]
fn what_is_no_picture_is_not_reencoded() {
    assert!(reencode_image("a.png", b"no picture", ImageTarget::OptimizedPng).is_err());
    let error = |path: &str| {
        reencode_image(path, b"no picture", ImageTarget::OptimizedPng).unwrap_err()
    };
    assert_eq!(
        error("a.txt"),
        "The file extension `.\"txt\"` was not recognized as an image format"
    );
    assert_eq!(error("a"), "The image format could not be determined");
    // A dot with nothing behind it is no extension.
    assert_eq!(error("a."), "The image format could not be determined");
    assert_eq!(find_format("a.", &sample_bmp()), Ok("bmp".to_string()));
    assert_eq!(find_format("a.PnG", b"no picture"), Ok("PnG".to_string()));
    // The first bytes count for more than the extension.
    assert!(reencode_image("a.txt", &sample_bmp(), ImageTarget::OptimizedPng).is_ok());
}

#[test]
fn a_picture_in_floating_point_is_refused() {
    let img: ImageBuffer<Rgb<f32>, Vec<f32>> = ImageBuffer::from_pixel(4, 4, Rgb([0.5, 0.2, 1.0]));
    let mut tiff = Cursor::new(Vec::new());
    img.write_to(&mut tiff, ImageFormat::Tiff).unwrap();
    let refused = reencode_image("a.tiff", tiff.get_ref(), ImageTarget::LosslessWebp);
    assert!(refused.unwrap_err().contains("does not support the color type"));
}

#[test]
fn a_colour_profile_is_carried_over() {
    let img = ImageBuffer::from_pixel(4, 4, Rgb([9u8, 8, 7]));
    let mut png = Vec::new();
    let mut encoder = image::codecs::png::PngEncoder::new(&mut png);
    image::ImageEncoder::set_icc_profile(&mut encoder, vec![1, 2, 3]).unwrap();
    img.write_with_encoder(encoder).unwrap();
    for target in [ImageTarget::LosslessWebp, ImageTarget::OptimizedPng] {
        let (bytes, _) = reencode_image("a.png", &png, target).unwrap();
        let reader = image::ImageReader::new(Cursor::new(bytes)).with_guessed_format().unwrap();
        let mut decoder = reader.into_decoder().unwrap();
        assert_eq!(image::ImageDecoder::icc_profile(&mut decoder).unwrap(), Some(vec![1, 2, 3]));
    }
}

#[test]
fn exif_data_is_carried_over() {
    let data = vec![77, 77, 0, 42, 0, 0, 0, 8, 0, 0];
    let img = ImageBuffer::from_pixel(4, 4, Rgb([9u8, 8, 7]));
    let mut png = Vec::new();
    let mut encoder = image::codecs::png::PngEncoder::new(&mut png);
    image::ImageEncoder::set_exif_metadata(&mut encoder, data.clone()).unwrap();
    img.write_with_encoder(encoder).unwrap();
    for target in [ImageTarget::LosslessWebp, ImageTarget::OptimizedPng] {
        let (bytes, _) = reencode_image("a.png", &png, target).unwrap();
        let reader = image::ImageReader::new(Cursor::new(bytes)).with_guessed_format().unwrap();
        let mut decoder = reader.into_decoder().unwrap();
        assert_eq!(image::ImageDecoder::exif_metadata(&mut decoder).unwrap(), Some(data.clone()));
    }
}

fn loaded(image: DynamicImage) -> Picture {
    let mut png = Cursor::new(Vec::new());
    image.write_to(&mut png, ImageFormat::Png).unwrap();
    Picture::load("png", png.get_ref()).unwrap()
}

fn picture(pixel: [u8; 4]) -> Picture {
    loaded(DynamicImage::ImageRgba8(ImageBuffer::from_pixel(1, 1, Rgba(pixel))))
}

fn deep(pixel: [u16; 4]) -> Picture {
    loaded(DynamicImage::ImageRgba16(ImageBuffer::from_pixel(1, 1, Rgba(pixel))))
}

#[test]
fn a_reencoded_file_is_taken_only_with_the_same_pixels() {
    let original = picture([7, 7, 7, 255]);
    assert!(same_pixels(&original, &picture([7, 7, 7, 255])));
    assert!(!same_pixels(&original, &picture([7, 7, 7, 254])));
    // Another kind with 8 bits is compared as RGBA, a deeper one never.
    let grey = |v: u8| loaded(DynamicImage::ImageLuma8(ImageBuffer::from_pixel(1, 1, Luma([v]))));
    assert!(same_pixels(&original, &grey(7)));
    assert!(!same_pixels(&original, &grey(8)));
    assert!(same_pixels(&deep([1, 2, 3, 4]), &deep([1, 2, 3, 4])));
    assert!(!same_pixels(&deep([1, 2, 3, 4]), &deep([257, 2, 3, 4])));
    assert!(!same_pixels(&deep([0; 4]), &picture([0; 4])));
    let wide = loaded(DynamicImage::ImageRgba8(ImageBuffer::from_pixel(2, 1, Rgba([7, 7, 7, 255]))));
    assert!(!same_pixels(&original, &wide));
    let good = accept_reencoded(&original, vec![9], true, Ok(picture([7, 7, 7, 255])));
    assert_eq!(good, Ok((vec![9], "webp")));
    let good = accept_reencoded(&original, vec![9], false, Ok(grey(7)));
    assert_eq!(good, Ok((vec![9], "png")));
    assert!(accept_reencoded(&original, vec![9], true, Ok(picture([0, 2, 3, 4]))).is_err());
    let unread = accept_reencoded(&original, vec![9], true, Err("broken".to_string()));
    assert_eq!(unread, Err("broken".to_string()));
    assert!(uses_webp(3, ImageTarget::LosslessWebp));
    assert!(!uses_webp(4, ImageTarget::LosslessWebp));
    assert!(!uses_webp(3, ImageTarget::OptimizedPng));
    assert_eq!(describe_refusal(Refusal::Encoding("too large".to_string())), "too large");
    assert_ne!(describe_refusal(Refusal::Icc), describe_refusal(Refusal::Exif));
}

#[test]
fn a_picture_is_read_by_its_kind() {
    let original = picture([1, 2, 3, 4]);
    assert_eq!((original.width(), original.height(), original.kind()), (1, 1, 3));
    assert_eq!(original.to_rgba8(), vec![1, 2, 3, 4]);
    assert_eq!(deep([257, 514, 771, 65535]).kind(), 7);
    assert_eq!(deep([257, 514, 771, 65535]).to_rgba8(), vec![1, 2, 3, 255]);
    let grid = original.resize_exact(9, 8, Sampling::Nearest);
    assert_eq!((grid.width(), grid.height(), grid.kind()), (9, 8, 3));
    assert_eq!(grid.to_rgba8().len(), 4 * 72);
    assert_eq!(picture([9, 9, 9, 255]).to_luma8(), vec![9]);
    let webp = original.to_webp(Some(vec![5, 6]), Some(vec![7])).unwrap();
    assert!(same_pixels(&Picture::decode("webp", &webp).unwrap(), &original));
    assert_eq!(Picture::load("webp", &webp[..20]).err(), Picture::load("WEBP", &webp[..20]).err());
}

#[test]
fn metadata_beyond_the_limit_does_not_fit() {
    assert!(fits_limit(&None));
    assert!(fits_limit(&Some(vec![0; 16])));
    // The pages of a zeroed vector are never touched.
    assert!(fits_limit(&Some(vec![0; WEBP_METADATA_LIMIT])));
    assert!(!fits_limit(&Some(vec![0; WEBP_METADATA_LIMIT + 1])));
    let refused = picture([0; 4]).to_webp(Some(vec![0; WEBP_METADATA_LIMIT + 1]), None);
    assert_eq!(refused, Err(Refusal::Icc));
    let refused = picture([0; 4]).to_webp(None, Some(vec![0; WEBP_METADATA_LIMIT + 1]));
    assert_eq!(refused, Err(Refusal::Exif));
}

#[test]
fn lossless_mode_only_accepts_lossless_sources() {
    let p = "clip.avi";
    assert_eq!(plan(p, "rawvideo", VideoMode::LosslessOnly).unwrap().1, "mkv");
    assert!(plan(p, "h264", VideoMode::LosslessOnly).is_err());
}

#[test]
fn visually_lossless_keeps_mp4_containers_and_skips_modern_codecs() {
    assert_eq!(plan("a.MP4", "h264", VideoMode::VisuallyLossless).unwrap().1, "mp4");
    assert_eq!(plan("a.avi", "mpeg4", VideoMode::VisuallyLossless).unwrap().1, "mkv");
    assert!(plan("a.mkv", "hevc", VideoMode::VisuallyLossless).is_err());
}

#[test]
fn codecs_are_told_by_their_names() {
    assert!(is_lossless_codec("rawvideo") && !is_lossless_codec("h264"));
    assert!(is_modern_codec("hevc") && !is_modern_codec("mpeg4"));
    assert!(is_video("a.MKV") && !is_video("a.png"));
    let (args, _) = plan("a.avi", "rawvideo", VideoMode::LosslessOnly).unwrap();
    assert!(args.contains(&"ffv1"));
    let (args, _) = plan("a.avi", "mpeg4", VideoMode::VisuallyLossless).unwrap();
    assert!(args.contains(&"libx265"));
    assert_eq!(VideoMode::Skip.label(), "Skip videos");
}

#[test]
fn the_probe_of_a_video_is_read() {
    let out = "codec_name=h264\r\nduration=12.5\n".to_string();
    assert_eq!(
        read_probe(ProbeRun::Printed(out)),
        Ok(ProbeFields { codec: "h264".to_string(), duration: Some("12.5".to_string()) })
    );
    assert_eq!(
        read_probe(ProbeRun::Printed("duration=3\n".to_string())),
        Err("no video stream".to_string())
    );
    assert_eq!(read_probe(ProbeRun::Failed), Err("ffprobe couldn't read it".to_string()));
    assert_eq!(
        read_probe(ProbeRun::NotRun("gone".to_string())),
        Err("couldn't run ffprobe: gone".to_string())
    );
    assert_eq!(probe_args()[3], "v:0");
}

#[test]
fn a_video_is_prepared_by_its_codec() {
    let probe = |codec: &str| Ok(Probe { codec: codec.to_string(), duration: Some(5) });
    let ready = prepare("a.avi", VideoMode::LosslessOnly, probe("rawvideo")).unwrap();
    assert_eq!((ready.ext, ready.duration), ("mkv", Some(5)));
    assert!(prepare("a.avi", VideoMode::LosslessOnly, probe("h264")).is_err());
    assert_eq!(
        prepare("a.avi", VideoMode::Skip, probe("rawvideo")),
        Err("videos are skipped".to_string())
    );
    assert_eq!(
        prepare("a.avi", VideoMode::LosslessOnly, Err("no video stream".to_string())),
        Err("no video stream".to_string())
    );
    assert_eq!(leading_args().last(), Some(&"-i"));
    assert_eq!(progress_args(), vec!["-progress", "pipe:1", "-nostats"]);
}

#[test]
fn the_progress_of_a_video_is_read() {
    assert_eq!(read_progress("out_time_us=1500000"), Some(1_500_000));
    assert_eq!(read_progress("frame=12"), None);
    assert_eq!(read_progress("out_time_us=N/A"), None);
}

#[test]
fn the_end_of_a_video_run_is_told() {
    let ended = |success: bool, errors: &str| VideoRun::Ended {
        success,
        errors: errors.to_string(),
    };
    assert_eq!(reencode_video(ended(true, "")), Ok(true));
    assert_eq!(reencode_video(VideoRun::Cancelled), Ok(false));
    assert_eq!(reencode_video(ended(false, "\n  \nbad header\n")), Err("bad header".to_string()));
    assert_eq!(reencode_video(ended(false, "\n")), Err("ffmpeg failed".to_string()));
    assert_eq!(reencode_video(VideoRun::Lost("x".to_string())), Err("x".to_string()));
    assert_eq!(
        reencode_video(VideoRun::NotRun("gone".to_string())),
        Err("couldn't run ffmpeg: gone".to_string())
    );
    assert!(VideoRun::Cancelled.discards_output() && ended(false, "").discards_output());
    assert!(!ended(true, "").discards_output());
}

/// A disk that is held in memory: content and time of each file.
type Disk = BTreeMap<String, (Vec<u8>, u64)>;

/// Re-encodes the pictures of `disk`.
fn run_on(disk: &mut Disk, originals: OriginalHandling) -> Vec<FileResult> {
    let options = ReencodeOptions {
        folders: vec![r"C:\d".to_string()],
        images: Some(ImageTarget::LosslessWebp),
        videos: VideoMode::Skip,
        originals,
    };
    let entries = disk
        .iter()
        .map(|(path, (content, _))| Entry {
            path: path.clone(),
            is_file: true,
            size: Some(content.len() as u64),
        })
        .collect();
    let (files, event) = discover(&options, entries);
    assert!(matches!(event, ReencodeEvent::Discovered { files: n, .. } if n == files.len()));
    let mut results = Vec::new();
    for (path, size) in files {
        let (content, time) = disk[&path].clone();
        let outcome = match process_image(&path, size, options.images, Ok(content)) {
            FileStep::Done(outcome) => outcome,
            FileStep::Encode { .. } => panic!("no video"),
            FileStep::Write { stem, temp, bytes, ext } => {
                assert!(is_temp(&temp));
                let new_size = bytes.len() as u64;
                disk.insert(temp.clone(), (bytes, time));
                let place = new_place(&path, &stem, ext, originals);
                let exists = disk.contains_key(&place);
                match plan_swap(&path, size, Ok(new_size), &place, exists, originals) {
                    Swap::Discard(outcome) => {
                        disk.remove(&temp);
                        outcome
                    }
                    Swap::Replace { trash, new_size } => {
                        if trash {
                            disk.remove(&path);
                        }
                        let content = disk.remove(&temp).unwrap();
                        disk.insert(place.clone(), content);
                        after_move(Ok(()), &temp, place, new_size)
                    }
                }
            }
        };
        results.push(FileResult { path, size, outcome });
    }
    results
}

#[test]
fn keeps_the_original_and_writes_a_smaller_lossless_copy() {
    let mut disk = Disk::new();
    disk.insert(r"C:\d\pic.bmp".to_string(), (sample_bmp(), 42));
    disk.insert(r"C:\d\photo.jpg".to_string(), (b"not touched".to_vec(), 1));

    let results = run_on(&mut disk, OriginalHandling::Keep);

    assert_eq!(results.len(), 1, "only the BMP is a candidate");
    assert!(matches!(
        &results[0].outcome,
        Outcome::Saved { new_path, .. } if new_path == r"C:\d\pic.webp"
    ));
    assert!(disk.contains_key(r"C:\d\pic.bmp"));
    let (webp, time) = &disk[r"C:\d\pic.webp"];
    assert_eq!(
        image::load_from_memory(webp).unwrap().to_rgb8(),
        image::load_from_memory(&sample_bmp()).unwrap().to_rgb8()
    );
    assert_eq!(*time, 42);
    // No temp files left behind.
    assert!(disk.keys().all(|p| !is_temp(p)));
}

#[test]
fn an_existing_file_with_the_new_name_is_never_overwritten() {
    let mut disk = Disk::new();
    disk.insert(r"C:\d\pic.bmp".to_string(), (sample_bmp(), 42));
    disk.insert(r"C:\d\pic.webp".to_string(), (b"someone else's file".to_vec(), 1));

    let results = run_on(&mut disk, OriginalHandling::Keep);

    assert!(matches!(results[0].outcome, Outcome::Skipped(_)));
    assert_eq!(disk[r"C:\d\pic.webp"].0, b"someone else's file");
}

#[test]
fn a_trashed_original_makes_room_for_the_new_file() {
    let mut disk = Disk::new();
    disk.insert(r"C:\d\pic.bmp".to_string(), (sample_bmp(), 42));
    let results = run_on(&mut disk, OriginalHandling::Trash);
    assert!(matches!(results[0].outcome, Outcome::Saved { .. }));
    assert_eq!(disk.keys().collect::<Vec<_>>(), [r"C:\d\pic.webp"]);
}

#[test]
fn a_file_that_does_not_shrink_is_discarded() {
    let swap = plan_swap("a.bmp", 10, Ok(10), "a.webp", false, OriginalHandling::Keep);
    assert_eq!(
        swap,
        Swap::Discard(Outcome::Skipped("re-encoded file wasn't smaller".to_string()))
    );
    let swap = plan_swap(
        "a.bmp",
        10,
        Err("unreadable".to_string()),
        "a.webp",
        false,
        OriginalHandling::Keep,
    );
    assert_eq!(swap, Swap::Discard(Outcome::Failed("unreadable".to_string())));
    // The original itself is no obstacle.
    let swap = plan_swap(r"d\a.png", 10, Ok(9), r"d\a.png", true, OriginalHandling::Trash);
    assert_eq!(swap, Swap::Replace { trash: true, new_size: 9 });
}

#[test]
fn failures_of_a_swap_are_told() {
    assert_eq!(
        after_trash("locked"),
        Outcome::Failed("couldn't move the original to the trash: locked".to_string())
    );
    let left = after_move(Err("locked".to_string()), "t", "n".to_string(), 3);
    assert_eq!(
        left,
        Outcome::Failed(
            "couldn't move the new file into place (locked); it was left at t".to_string()
        )
    );
}

#[test]
fn only_wanted_files_are_processed() {
    let options = |images: Option<ImageTarget>, videos: VideoMode| ReencodeOptions {
        folders: Vec::new(),
        images,
        videos,
        originals: OriginalHandling::Keep,
    };
    let pictures = options(Some(ImageTarget::OptimizedPng), VideoMode::Skip);
    assert!(is_wanted(&pictures, "a.png") && !is_wanted(&pictures, "a.avi"));
    let videos = options(None, VideoMode::LosslessOnly);
    assert!(is_wanted(&videos, "a.avi") && !is_wanted(&videos, "a.png"));
    let temp = temp_place(r"C:\d\a.png", "a", "png");
    assert!(is_temp(&temp) && !is_wanted(&pictures, &temp));
    assert_eq!(
        process_image("a.png", 3, None, Ok(Vec::new())),
        FileStep::Done(Outcome::Skipped("images are skipped".to_string()))
    );
    assert_eq!(
        process_image("a.png", 3, pictures.images, Err("locked".to_string())),
        FileStep::Done(Outcome::Skipped("locked".to_string()))
    );
    assert_eq!(
        process_image("..", 3, pictures.images, Ok(Vec::new())),
        FileStep::Done(Outcome::Skipped("no file name".to_string()))
    );
    let video = PreparedVideo { args: Vec::new(), ext: "mkv", duration: None };
    assert!(matches!(
        process_video("a.avi", Ok(video)),
        FileStep::Encode { stem, .. } if stem == "a"
    ));
    assert_eq!(
        process_video("a.avi", Err("videos are skipped".to_string())),
        FileStep::Done(Outcome::Skipped("videos are skipped".to_string()))
    );
}

#[test]
fn a_kept_original_and_its_new_version_have_different_names() {
    let kept = new_place(r"C:\d\a.png", "a", "png", OriginalHandling::Keep);
    assert_ne!(kept, r"C:\d\a.png");
    assert_eq!(new_place(r"C:\d\a.png", "a", "png", OriginalHandling::Trash), r"C:\d\a.png");
}

fn done(size: u64, outcome: Outcome) -> ReencodeEvent {
    ReencodeEvent::FileDone(FileResult { path: "a.bmp".to_string(), size, outcome })
}

#[test]
fn a_reencode_run_is_tallied() {
    let mut state = ReencodeState::default();
    assert!(state.start(true).is_none(), "no folders yet");
    assert!(!state.can_start());
    state.folders.push(r"C:\d".to_string());
    state.images_enabled = false;
    assert!(!state.can_start(), "nothing to re-encode");
    state.images_enabled = true;
    assert!(state.can_start());
    let options = state.start(true).unwrap();
    assert_eq!(options.folders, vec![r"C:\d".to_string()]);
    assert!(state.is_running() && state.start(true).is_none());
    state.take_event(ReencodeEvent::Discovered { files: 3, bytes: 1000 });
    state.take_event(ReencodeEvent::Started { path: "a.bmp".to_string(), size: 600 });
    state.take_event(ReencodeEvent::FileProgress { done: 1, total: 2 });
    assert_eq!(state.job.as_ref().unwrap().progress_bytes(), 300);
    // As much again takes as long again, and more.
    assert_eq!(
        state.job.as_ref().unwrap().eta(3_000_000_000),
        dupe_rs::control::estimate_remaining(300, 1000, 3_000_000_000)
    );
    state.take_event(done(
        600,
        Outcome::Saved { new_path: "a.webp".to_string(), new_size: 200 },
    ));
    state.take_event(done(300, Outcome::Skipped("no".to_string())));
    state.take_event(done(100, Outcome::Failed("no".to_string())));
    assert_eq!(
        state.totals,
        ReencodeTotals { converted: 1, skipped: 1, failed: 1, bytes_before: 600, bytes_after: 200 }
    );
    assert_eq!(state.totals.saved(), 400);
    assert_eq!(state.job.as_ref().unwrap().bytes_done, 1000);
    assert_eq!(state.shown_results(), vec![0, 2]);
    state.hide_skipped = false;
    assert_eq!(state.shown_results(), vec![0, 1, 2]);
    state.take_event(ReencodeEvent::Finished);
    assert!(!state.is_running());
    assert_eq!(state.status, Some(describe_run(false, state.totals, "400 B")));
    assert!(!state.take_event(ReencodeEvent::Finished), "nothing runs");
}

#[test]
fn videos_are_left_alone_without_ffmpeg() {
    let mut state = ReencodeState::default();
    state.folders.push(r"C:\d".to_string());
    state.video_mode = VideoMode::LosslessOnly;
    let options = state.start(false).unwrap();
    assert_eq!(options.videos, VideoMode::Skip);
    assert_eq!(
        state.status.as_deref(),
        Some("ffmpeg/ffprobe not found on PATH: videos will be skipped.")
    );
    // It is looked for only once.
    assert!(!state.ffmpeg_available(true));
}
