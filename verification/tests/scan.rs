use dupe_rs::config::{ExtensionFilter, ScanConfig, ScanMode};
use dupe_rs::control::{Checkpoint, JobControl};
use dupe_rs::model::{DupeGroup, FileEntry, MediaEntry, ScanEvent, SimilarGroup};
use dupe_rs::scanner::group::{group_by_size, sort_group_original, split_by_parent};
use dupe_rs::scanner::hash::{full_hash, partial_hash, ContentHasher, HeadReader};
use dupe_rs::scanner::similarity::{
    cluster_by_similarity, dhash, hamming_distance, has_videos, hash_image, hash_video_frame,
    is_image_path, is_video_path, keep_media, make_candidate, run_similarity_scan, video_warning,
    Candidate,
};
use dupe_rs::scanner::walk::{max_depth, walk_and_filter, FoundFile, Walked};
use dupe_rs::scanner::{
    bytes_to_hash, confirm_groups, find_size_candidates, narrow_groups, report_threshold, run_scan,
    HashTally,
};
use image::{GrayImage, ImageFormat, Luma, RgbImage};
use std::io::Cursor;

fn entry(name: &str, modified_offset_secs: i128) -> FileEntry {
    let modified = modified_offset_secs * 1_000_000_000;
    FileEntry { path: name.to_string(), size: 100, created: modified, modified }
}

#[test]
fn group_by_size_buckets_by_size() {
    let mut small = entry("a", 0);
    small.size = 50;
    let files = vec![small, entry("b", 0), entry("c", 1)];
    let groups = group_by_size(files);
    assert_eq!(groups.get(&(50, None)).unwrap().len(), 1);
    assert_eq!(groups.get(&(100, None)).unwrap().len(), 2);
}

#[test]
fn group_by_size_separates_same_size_different_extensions() {
    let mut jpg = entry("photo.jpg", 0);
    jpg.size = 100;
    let mut png = entry("photo.png", 0);
    png.size = 100;
    let groups = group_by_size(vec![jpg, png]);
    assert_eq!(
        groups.len(),
        2,
        "same-size files with different extensions must not share a bucket"
    );
}

#[test]
fn group_by_size_ignores_the_case_of_extensions() {
    let groups = group_by_size(vec![entry("a.JPG", 0), entry("b.jpg", 0)]);
    assert_eq!(groups.len(), 1);
    assert_eq!(groups.get(&(100, Some("jpg".to_string()))).unwrap().len(), 2);
    assert!(groups.get(&(100, None)).is_none());
}

#[test]
fn oldest_modified_wins_as_original() {
    let mut files = vec![entry("newer.txt", 10), entry("older.txt", 5)];
    sort_group_original(&mut files);
    assert_eq!(files[0].path, "older.txt");
}

#[test]
fn shortest_filename_breaks_tie_on_modified() {
    let mut files = vec![entry("longer_name.txt", 5), entry("short.txt", 5)];
    sort_group_original(&mut files);
    assert_eq!(files[0].path, "short.txt");
}

#[test]
fn split_by_parent_keeps_only_folders_with_multiple_copies() {
    let files = vec![
        entry("dir_a/one.txt", 0),
        entry("dir_a/two.txt", 0),
        entry("dir_b/lonely.txt", 0),
    ];
    let mut subgroups = split_by_parent(files);
    assert_eq!(subgroups.len(), 1);
    let group = subgroups.remove(0);
    assert_eq!(group.len(), 2);
    assert!(group.iter().all(|f| f.path.starts_with("dir_a")));
}

/// A file of a disk that is held in memory: its path, its content and how
/// many seconds ago it was written.
type Stored<'a> = (&'a str, Vec<u8>, i128);

fn config_for(dir: &str) -> ScanConfig {
    ScanConfig { folders: vec![dir.to_string()], ..ScanConfig::default() }
}

/// Walks `disk` as a scan of the first folder of `config` would.
fn walk(config: &ScanConfig, disk: &[Stored]) -> (Vec<FileEntry>, Vec<ScanEvent>) {
    let root = format!("{}/", config.folders[0]);
    let deepest = max_depth(config).unwrap_or(usize::MAX);
    let steps = disk
        .iter()
        .filter_map(|(path, content, age)| {
            let rel = path.strip_prefix(root.as_str())?;
            if rel.split('/').count() > deepest {
                return None;
            }
            Some(Walked::File(FoundFile {
                path: path.to_string(),
                size: content.len() as u64,
                modified: Some(1_000_000_000_000_000 - age * 1_000_000_000),
                created: None,
            }))
        })
        .collect();
    walk_and_filter(steps, config)
}

fn scan(config: ScanConfig, disk: &[Stored]) -> Vec<DupeGroup> {
    let (files, _) = walk(&config, disk);
    let content = |f: &FileEntry| &disk.iter().find(|(path, _, _)| *path == f.path).unwrap().1;
    let partial = files.iter().map(|f| Some(partial_hash(content(f)))).collect();
    let full = files.iter().map(|f| Some(full_hash(content(f)))).collect();
    run_scan(&files, &partial, &full, config.same_folder_only)
}

#[test]
fn finds_duplicate_groups_and_marks_oldest_as_original() {
    let disk = [
        ("/d/b_newer.txt", b"same content, same content, same content".to_vec(), 0),
        ("/d/a_older.txt", b"same content, same content, same content".to_vec(), 60),
        ("/d/unique.txt", b"totally different".to_vec(), 0),
    ];

    let groups = scan(config_for("/d"), &disk);

    assert_eq!(groups.len(), 1);
    assert_eq!(groups[0].files.len(), 2);
    assert_eq!(groups[0].files[0].path, "/d/a_older.txt");
}

#[test]
fn finds_cross_folder_duplicates_by_default() {
    let disk = [
        ("/d/a/photo.jpg", b"identical bytes across folders".to_vec(), 60),
        ("/d/b/photo_copy.jpg", b"identical bytes across folders".to_vec(), 0),
    ];

    let groups = scan(config_for("/d"), &disk);

    assert_eq!(groups.len(), 1);
    assert_eq!(groups[0].files.len(), 2);
    assert_eq!(groups[0].files[0].path, "/d/a/photo.jpg");
    assert_eq!(groups[0].hash, full_hash(b"identical bytes across folders"));
}

#[test]
fn same_folder_only_drops_cross_folder_duplicates() {
    let disk = [
        ("/d/a/photo.jpg", b"identical bytes".to_vec(), 0),
        ("/d/b/photo_copy.jpg", b"identical bytes".to_vec(), 0),
    ];

    let mut config = config_for("/d");
    config.same_folder_only = true;
    let groups = scan(config, &disk);

    assert!(groups.is_empty(), "cross-folder copies must not be marked duplicate");
}

#[test]
fn same_folder_only_keeps_duplicates_sharing_a_folder() {
    let disk = [
        ("/d/a/one.jpg", b"same folder duplicate content".to_vec(), 60),
        ("/d/a/two.jpg", b"same folder duplicate content".to_vec(), 0),
        // A same-content file in a different folder should stay excluded.
        ("/d/b/three.jpg", b"same folder duplicate content".to_vec(), 0),
    ];

    let mut config = config_for("/d");
    config.same_folder_only = true;
    let groups = scan(config, &disk);

    assert_eq!(groups.len(), 1);
    assert_eq!(groups[0].files.len(), 2);
    assert!(groups[0].files.iter().all(|f| f.path.starts_with("/d/a/")));
}

#[test]
fn exclude_subfolders_ignores_nested_files() {
    let disk = [
        ("/d/top.txt", b"duplicate payload".to_vec(), 0),
        ("/d/nested/copy.txt", b"duplicate payload".to_vec(), 0),
    ];

    let mut config = config_for("/d");
    config.exclude_subfolders = true;
    let groups = scan(config, &disk);

    assert!(groups.is_empty(), "the nested copy should never be seen");
}

#[test]
fn extension_include_filter_limits_matches() {
    let disk = [
        ("/d/a.txt", b"same content, different extension".to_vec(), 0),
        ("/d/b.log", b"same content, different extension".to_vec(), 0),
        ("/d/c.txt", b"same content, different extension".to_vec(), 0),
    ];

    let mut config = config_for("/d");
    config.extensions = ExtensionFilter::Include(vec!["txt".to_string()]);
    let groups = scan(config, &disk);

    assert_eq!(groups.len(), 1);
    assert_eq!(groups[0].files.len(), 2);
    assert!(groups[0].files.iter().all(|f| f.path.ends_with(".txt")));
}

#[test]
fn size_range_filter_excludes_files_outside_bounds() {
    let disk = [
        ("/d/small_a.bin", vec![1u8; 10], 0),
        ("/d/small_b.bin", vec![1u8; 10], 0),
        ("/d/big_a.bin", vec![2u8; 10_000], 0),
        ("/d/big_b.bin", vec![2u8; 10_000], 0),
    ];

    let mut config = config_for("/d");
    config.min_size = Some(1_000);
    let groups = scan(config, &disk);

    assert_eq!(groups.len(), 1);
    assert_eq!(groups[0].files[0].size, 10_000);

    let mut config = config_for("/d");
    config.max_size = Some(10);
    let groups = scan(config, &disk);

    assert_eq!(groups.len(), 1);
    assert_eq!(groups[0].files[0].size, 10);
}

#[test]
fn same_size_different_extension_files_are_not_grouped() {
    // The extension is part of the bucket key before any hashing (a speed
    // optimization), so identical content under different extensions doesn't
    // count as a duplicate.
    let disk = [
        ("/d/a.jpg", b"identical bytes, different ext".to_vec(), 0),
        ("/d/b.png", b"identical bytes, different ext".to_vec(), 0),
    ];

    let groups = scan(config_for("/d"), &disk);

    assert!(groups.is_empty());
}

#[test]
fn subdirectories_are_walked_in_parallel_without_missing_files() {
    // Several sibling folders, each with its own duplicate pair plus a
    // unique file, must all be found.
    let names: Vec<(String, String, String, &str)> =
        ["artist_a", "artist_b", "artist_c", "artist_d"]
            .iter()
            .map(|artist| {
                (
                    format!("/d/{artist}/track.mp3"),
                    format!("/d/{artist}/track_copy.mp3"),
                    format!("/d/{artist}/other.mp3"),
                    *artist,
                )
            })
            .collect();
    let mut disk: Vec<Stored> = Vec::new();
    for (track, copy, other, artist) in &names {
        let track_bytes = format!("track bytes unique to {artist}").into_bytes();
        disk.push((track.as_str(), track_bytes.clone(), 0));
        disk.push((copy.as_str(), track_bytes, 0));
        disk.push((other.as_str(), format!("unique to {artist}").into_bytes(), 0));
    }

    let groups = scan(config_for("/d"), &disk);

    assert_eq!(groups.len(), 4);
    assert!(groups.iter().all(|g| g.files.len() == 2));
}

/// Scans `disk` the way a worker does: it asks `control` before each file, and
/// ends in any case.
fn scan_under(config: ScanConfig, disk: &[Stored], control: &JobControl) -> Vec<ScanEvent> {
    let seen: Vec<Stored> =
        disk.iter().take_while(|_| control.checkpoint() == Checkpoint::Proceed).cloned().collect();
    let mut events = walk(&config, &seen).1;
    if control.checkpoint() == Checkpoint::Proceed {
        events.extend(scan(config, &seen).into_iter().map(ScanEvent::GroupFound));
    }
    events.push(ScanEvent::Done { elapsed_ms: 0 });
    events
}

#[test]
fn cancelling_before_scan_starts_yields_no_groups() {
    let disk = [("/d/a.txt", b"content".to_vec(), 0), ("/d/b.txt", b"content".to_vec(), 0)];
    let is_group = |e: &ScanEvent| matches!(e, ScanEvent::GroupFound(_));

    let events = scan_under(config_for("/d"), &disk, &JobControl::cancelled());
    assert!(matches!(events.last(), Some(ScanEvent::Done { .. })));
    assert!(!events.iter().any(is_group));

    // Left alone, the same scan finds the two.
    let events = scan_under(config_for("/d"), &disk, &JobControl::default());
    assert!(matches!(events.last(), Some(ScanEvent::Done { .. })));
    assert_eq!(events.iter().filter(|e| is_group(e)).count(), 1);
}

#[test]
fn rar_and_split_archive_volumes_are_skipped_unless_asked_for() {
    let disk = [
        ("/d/a/movie.part1.rar", b"volume one bytes".to_vec(), 0),
        ("/d/a/movie.part2.rar", b"volume two bytes".to_vec(), 0),
        ("/d/a/old.r00", b"old style volume".to_vec(), 0),
        ("/d/a/backup.7z.001", b"seven zip split".to_vec(), 0),
        ("/d/a/photo.jpg", b"an ordinary duplicate".to_vec(), 0),
        ("/d/b/movie.part1.rar", b"volume one bytes".to_vec(), 0),
        ("/d/b/movie.part2.rar", b"volume two bytes".to_vec(), 0),
        ("/d/b/old.r00", b"old style volume".to_vec(), 0),
        ("/d/b/backup.7z.001", b"seven zip split".to_vec(), 0),
        ("/d/b/photo.jpg", b"an ordinary duplicate".to_vec(), 0),
    ];

    let groups = scan(config_for("/d"), &disk);
    assert_eq!(groups.len(), 1, "only the ordinary file pairs up");
    assert!(groups[0].files[0].path.ends_with("photo.jpg"));

    let groups = scan(ScanConfig { skip_archives: false, ..config_for("/d") }, &disk);
    assert_eq!(groups.len(), 5);
    // No file stands twice.
    let mut shown: Vec<&str> =
        groups.iter().flat_map(|g| g.files.iter().map(|f| f.path.as_str())).collect();
    shown.sort();
    shown.dedup();
    assert_eq!(shown.len(), 10);
}

#[test]
fn a_name_filter_limits_the_walk() {
    let disk = [
        ("/d/Thumbs.db", b"x".to_vec(), 0),
        ("/d/e/thumbs.db", b"x".to_vec(), 0),
        ("/d/e/photo.db", b"x".to_vec(), 0),
    ];
    let mut config = ScanConfig { name_filter: "thumbs".to_string(), ..config_for("/d") };
    assert_eq!(walk(&config, &disk).0.len(), 3, "the name only counts when matching files");
    config.mode = ScanMode::MatchingFiles;
    assert_eq!(walk(&config, &disk).0.len(), 2);
}

#[test]
fn a_walk_reports_what_it_could_not_read() {
    let steps = vec![
        Walked::Failed("gone".to_string()),
        Walked::Unreadable { path: "/d/a".to_string(), error: "denied".to_string() },
        Walked::Other,
        Walked::File(FoundFile {
            path: "/d/b".to_string(),
            size: 3,
            modified: Some(7),
            created: None,
        }),
    ];
    let (files, events) = walk_and_filter(steps, &config_for("/d"));
    assert_eq!(files.len(), 1);
    assert_eq!(events.last(), Some(&ScanEvent::Progress { scanned: 1 }), "the final count");
    // Where the file system doesn't track it, the creation time is the
    // modification time.
    assert_eq!((files[0].modified, files[0].created), (7, 7));
    let errors: Vec<String> = events
        .into_iter()
        .filter_map(|e| match e {
            ScanEvent::Error(text) => Some(text),
            _ => None,
        })
        .collect();
    assert_eq!(errors.len(), 2);
    assert!(errors[0].contains("gone"));
    assert!(errors[1].contains("/d/a") && errors[1].contains("denied"));
}

#[test]
fn a_walk_reports_its_progress_now_and_then() {
    let steps = (0..1000)
        .map(|i| {
            Walked::File(FoundFile {
                path: format!("/d/{i}"),
                size: 1,
                modified: Some(0),
                created: Some(0),
            })
        })
        .collect();
    let (files, events) = walk_and_filter(steps, &config_for("/d"));
    assert_eq!(files.len(), 1000);
    let last = events.last();
    assert!(matches!(last, Some(ScanEvent::Progress { scanned: 1000 })), "{last:?}");
}

#[test]
fn hashes_are_those_of_the_content() {
    assert_eq!(full_hash(b"abc"), *blake3::hash(b"abc").as_bytes());
    let long = vec![9u8; 100_000];
    assert_ne!(partial_hash(&long), full_hash(&long));
    let mut other = long.clone();
    other[99_999] = 1;
    assert_eq!(partial_hash(&long), partial_hash(&other));
    assert_ne!(full_hash(&long), full_hash(&other));
    assert_eq!(partial_hash(b"short"), full_hash(b"short"));
}

#[test]
fn content_read_in_pieces_hashes_like_the_whole() {
    let content: Vec<u8> = (0..100_000u32).map(|i| (i % 251) as u8).collect();
    let mut whole = ContentHasher::new();
    let mut head = HeadReader::new();
    for piece in content.chunks(777) {
        whole.feed(piece);
        head.feed(piece);
    }
    assert_eq!(head.wanted(), 0);
    assert_eq!(whole.finish(), full_hash(&content));
    assert_eq!(head.finish(), partial_hash(&content));
}

#[test]
fn an_unreadable_file_drops_out_of_its_group() {
    let files = vec![entry("/a", 0), entry("/b", 1), entry("/c", 2)];
    let partial = vec![Some([1; 32]), Some([1; 32]), Some([1; 32])];
    let full = vec![Some([2; 32]), None, Some([2; 32])];
    let groups = run_scan(&files, &partial, &full, false);
    assert_eq!(groups.len(), 1);
    let names: Vec<&str> = groups[0].files.iter().map(|f| f.path.as_str()).collect();
    assert_eq!(names, vec!["/a", "/c"]);
}

#[test]
fn equal_heads_alone_make_no_group() {
    let files = vec![entry("/a", 0), entry("/b", 1)];
    let partial = vec![Some([1; 32]), Some([1; 32])];
    let full = vec![Some([2; 32]), Some([3; 32])];
    assert!(run_scan(&files, &partial, &full, false).is_empty());
}

#[test]
fn a_scan_narrows_its_candidates_step_by_step() {
    let mut files = vec![entry("/a", 0), entry("/b", 1), entry("/c", 2), entry("/d", 3)];
    files[3].size = 7;
    let sized = find_size_candidates(&files);
    assert_eq!(sized, vec![vec![0, 1, 2]]);
    let heads = vec![Some([1; 32]), Some([1; 32]), Some([9; 32]), None];
    let narrowed = narrow_groups(&sized, &heads);
    assert_eq!(narrowed, vec![vec![0, 1]]);
    assert_eq!(bytes_to_hash(&files, &narrowed), 200);
    let full = vec![Some([2; 32]), Some([2; 32]), None, None];
    let confirmed = confirm_groups(&files, &narrowed, &full, false);
    assert_eq!(confirmed.len(), 1);
    assert_eq!(confirmed[0].hash, [2; 32]);
}

#[test]
fn hash_progress_is_reported_in_steps() {
    assert_eq!(report_threshold(0), 4_194_304);
    assert_eq!(report_threshold(2_000_000_000_000), 10_000_000_000);
    let (mut tally, event) = HashTally::start(10_000_000);
    assert_eq!(event, ScanEvent::HashPhaseStarted { total_bytes: 10_000_000 });
    assert_eq!(tally.count(4_194_303), None);
    assert_eq!(tally.count(1), Some(ScanEvent::HashProgress { bytes_done: 4_194_304 }));
    assert_eq!(tally.count(1), None);
    assert_eq!(tally.finish(), Some(ScanEvent::HashProgress { bytes_done: 10_000_000 }));
    assert_eq!(HashTally::start(0).0.finish(), None);
}

fn media(name: &str, width: u32, height: u32, modified_offset_secs: i128) -> MediaEntry {
    MediaEntry {
        path: name.to_string(),
        size: 100,
        created: 0,
        modified: modified_offset_secs * 1_000_000_000,
        width,
        height,
    }
}

#[test]
fn hamming_distance_counts_differing_bits() {
    assert_eq!(hamming_distance(0b1010, 0b1010), 0);
    assert_eq!(hamming_distance(0b1010, 0b0010), 1);
    assert_eq!(hamming_distance(0, u64::MAX), 64);
}

#[test]
fn hamming_distance_is_a_distance() {
    let (a, b, c) = (0b1100, 0b1010, 0b0111);
    assert_eq!(hamming_distance(a, b), hamming_distance(b, a));
    assert!(hamming_distance(a, c) <= hamming_distance(a, b) + hamming_distance(b, c));
}

#[test]
fn cluster_by_similarity_groups_close_hashes_and_separates_distant_ones() {
    let candidates = vec![
        Candidate { entry: media("a.jpg", 100, 100, 0), hash: 0b0000_0000 },
        Candidate { entry: media("b.jpg", 200, 200, 0), hash: 0b0000_0011 }, // 2 bits from a
        Candidate { entry: media("c.jpg", 300, 300, 0), hash: 0b1111_1111 }, // far from a
    ];
    let clusters = cluster_by_similarity(candidates, 4);
    assert_eq!(clusters.len(), 2);
    let sizes: Vec<usize> = clusters.iter().map(|c| c.len()).collect();
    assert!(sizes.contains(&2));
    assert!(sizes.contains(&1));
}

#[test]
fn sort_group_original_prefers_highest_resolution_then_oldest() {
    let mut files = vec![
        media("small.jpg", 100, 100, 5),
        media("big_but_newer.jpg", 400, 400, 10),
        media("big_older.jpg", 400, 400, 1),
    ];
    dupe_rs::scanner::similarity::sort_group_original(&mut files);
    assert_eq!(files[0].path, "big_older.jpg");
}

#[test]
fn similar_media_are_grouped_with_the_largest_first() {
    let candidates = || {
        vec![
            Candidate { entry: media("/a/small.jpg", 10, 10, 0), hash: 0 },
            Candidate { entry: media("/b/lonely.jpg", 10, 10, 0), hash: u64::MAX },
            Candidate { entry: media("/c/large.jpg", 90, 90, 0), hash: 1 },
        ]
    };
    let groups: Vec<SimilarGroup> = run_similarity_scan(candidates(), 4, false);
    assert_eq!(groups.len(), 1);
    let names: Vec<&str> = groups[0].files.iter().map(|f| f.path.as_str()).collect();
    assert_eq!(names, vec!["/c/large.jpg", "/a/small.jpg"]);
    assert!(run_similarity_scan(candidates(), 4, true).is_empty());
}

#[test]
fn media_are_told_by_their_extension() {
    assert!(is_image_path("a.JPG") && !is_image_path("a.mp4") && !is_image_path("jpg"));
    assert!(is_video_path("b.mkv") && !is_video_path("b.png"));
    let files = vec![entry("a.jpg", 0), entry("b.txt", 0)];
    assert!(!has_videos(&files));
    let kept = keep_media(files);
    assert_eq!(kept.len(), 1);
    assert_eq!(kept[0].path, "a.jpg");
    let clips = vec![entry("c.mp4", 0)];
    assert!(has_videos(&clips));
    assert!(matches!(video_warning(&clips, true), Some(ScanEvent::Error(_))));
    assert_eq!(video_warning(&clips, false), None);
    assert_eq!(video_warning(&kept, true), None);
}

#[test]
fn difference_hash_compares_neighbours() {
    let mut luma = vec![0u8; 72];
    assert_eq!(dhash(&luma), 0);
    // Each row falls from left to right.
    for (i, v) in luma.iter_mut().enumerate() {
        *v = 80 - (i % 9) as u8;
    }
    assert_eq!(dhash(&luma), u64::MAX);
}

fn png_of(image: &RgbImage) -> Vec<u8> {
    let mut out = Cursor::new(Vec::new());
    image.write_to(&mut out, ImageFormat::Png).unwrap();
    out.into_inner()
}

fn gradient(width: u32, height: u32) -> RgbImage {
    RgbImage::from_fn(width, height, |x, _| {
        let v = 255 - (x * 255 / width) as u8;
        image::Rgb([v, v, v])
    })
}

#[test]
fn a_resized_picture_has_a_similar_hash() {
    let large = hash_image("png", &png_of(&gradient(180, 160))).unwrap();
    let small = hash_image("png", &png_of(&gradient(90, 80))).unwrap();
    assert_eq!((large.0, large.1), (180, 160));
    assert_eq!((small.0, small.1), (90, 80));
    assert!(hamming_distance(large.2, small.2) <= 4);
    // The gradient darkens towards the right all over.
    assert_eq!(large.2, u64::MAX);
}

#[test]
fn a_video_frame_is_hashed_like_a_picture() {
    let frame = png_of(&gradient(90, 80));
    assert_eq!(hash_video_frame(&frame), hash_image("png", &frame));
    assert_eq!(hash_video_frame(&[]), None);
    assert_eq!(hash_video_frame(b"no picture"), None);
}

#[test]
fn what_is_no_picture_has_no_hash() {
    assert_eq!(hash_image("png", b"no picture"), None);
    let mut out = Cursor::new(Vec::new());
    GrayImage::from_pixel(4, 4, Luma([9])).write_to(&mut out, ImageFormat::Bmp).unwrap();
    assert!(hash_image("bmp", out.get_ref()).is_some());
}

#[test]
fn a_candidate_carries_the_decoded_size() {
    let c = make_candidate(entry("a.jpg", 3), Some((40, 30, 77))).unwrap();
    assert_eq!((c.entry.width, c.entry.height, c.hash), (40, 30, 77));
    assert_eq!((c.entry.path.as_str(), c.entry.size), ("a.jpg", 100));
    assert!(make_candidate(entry("a.jpg", 3), None).is_none());
}
