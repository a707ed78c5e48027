use dupe_rs::app::SortDirection;
use dupe_rs::index_db::{IndexDb, IndexedFile, VolumeUsage};
use dupe_rs::model::{DupeGroup, FileEntry, MediaEntry, SimilarGroup};
use dupe_rs::reverse_search::ReverseSearchState;
use dupe_rs::scanner::hash::full_hash;
use dupe_rs::scanner::indexer::{
    drives_of, index_entries, index_entry, progress_after, volume_usage, IndexEvent,
};
use dupe_rs::ui::controls::next_direction;
use dupe_rs::ui::delete_confirm::ask;
use dupe_rs::ui::dialogs::{add_folders, PickKind, PickPurpose};
use dupe_rs::ui::results_grid::{build_rows, kind_of_name, truncate, FileKind};
use dupe_rs::ui::results_table_similar::GroupHighlights;
use dupe_rs::ui::reverse_search_panel::{summarize, volume_of};
use dupe_rs::ui::thumbnails::{decode_thumbnail, shrink_picture, ThumbState, ThumbnailCache};
use dupe_rs::picture::{fits_thumbnail, Picture};
use dupe_rs::volume::{DiskSpace, VolumeInfo};
use image::{ImageBuffer, ImageFormat, Luma, Rgb, RgbImage};
use std::io::Cursor;

fn entry(path: &str, size: u64) -> FileEntry {
    FileEntry { path: path.to_string(), size, created: 1, modified: 2 }
}

fn volumes() -> Vec<VolumeInfo> {
    vec![
        VolumeInfo { drive_letter: "C:".to_string(), label: "system".to_string() },
        VolumeInfo { drive_letter: "D:".to_string(), label: "data".to_string() },
    ]
}

#[test]
fn reverse_search_indexes_a_folder_and_finds_a_match_by_content() {
    let indexed = r"C:\dir\original.txt";
    let payload = b"reverse search payload";

    let mut search = ReverseSearchState::new(IndexDb::default());
    assert!(!search.can_index());
    assert!(search.start_indexing().is_none(), "no folder yet");
    search.index_folders.push(r"C:\dir".to_string());
    assert!(search.can_index());
    let config = search.start_indexing().unwrap();
    assert_eq!(config.folders, vec![r"C:\dir".to_string()]);
    assert!(search.is_indexing() && search.start_indexing().is_none());

    let files = vec![entry(indexed, payload.len() as u64)];
    let entries = index_entries(&files, &vec![Some(full_hash(payload))], &volumes());
    let usage = VolumeUsage { total: 10, free: 4, recorded_at: 9 };
    let finished = search
        .take_index_event(IndexEvent::Done {
            entries,
            elapsed_ms: 3,
            usage: vec![("C:".to_string(), "system".to_string(), usage)],
        })
        .unwrap();
    assert_eq!((finished.file_count, finished.drive_count), (1, 1));
    assert!(search.finish_indexing(finished, Ok(())).is_none(), "no file was picked yet");
    assert!(!search.is_indexing());

    assert!(search.db.total_files() >= 1);
    assert_eq!(search.db.usage("C:", "system"), Some(usage));

    let asked = search.pick_file(r"C:\dir\picked_copy.txt".to_string()).unwrap();
    assert!(search.is_looking_up());
    let label = Some("system".to_string());
    assert!(search.take_lookup(asked.ticket, Ok(full_hash(payload)), label));

    assert_eq!(search.results.len(), 1);
    // rel_path is relative to the volume root (not the scanned folder), so
    // the match's reconstructed absolute path should round-trip back to the
    // indexed file.
    let matched = &search.results[0];
    assert_eq!(matched.absolute_path(), indexed);
}

#[test]
fn an_outdated_lookup_is_ignored() {
    let mut search = ReverseSearchState::new(IndexDb::default());
    let first = search.pick_file("a".to_string()).unwrap();
    let second = search.pick_file("b".to_string()).unwrap();
    assert!(!search.take_lookup(first.ticket, Ok([0; 32]), None));
    assert!(search.is_looking_up());
    assert!(search.take_lookup(second.ticket, Err("locked".to_string()), None));
    assert_eq!(search.status.as_deref(), Some("Couldn't read b: locked"));
}

#[test]
fn indexing_can_be_paused_and_cancelled() {
    let mut search = ReverseSearchState::new(IndexDb::default());
    search.toggle_index_pause();
    assert!(!search.is_index_paused(), "nothing to pause");
    search.index_folders.push("f".to_string());
    search.start_indexing();
    search.toggle_index_pause();
    assert!(search.is_index_paused());
    search.toggle_index_pause();
    search.cancel_indexing();
    assert!(search.is_indexing() && !search.is_index_paused());
    assert!(search.take_index_event(IndexEvent::Progress { scanned: 3, total: 9 }).is_none());
}

#[test]
fn nothing_of_a_cancelled_pass_is_added() {
    let mut search = ReverseSearchState::new(IndexDb::default());
    search.index_folders.push("f".to_string());
    search.db.upsert(index_entries(&vec![entry(r"D:\old", 3)], &vec![Some([1; 32])], &volumes()));
    search.start_indexing();
    search.cancel_indexing();
    let entries = index_entries(&vec![entry(r"D:\new", 3)], &vec![Some([2; 32])], &volumes());
    let usage = VolumeUsage { total: 10, free: 4, recorded_at: 9 };
    let done = IndexEvent::Done {
        entries,
        elapsed_ms: 3,
        usage: vec![("D:".to_string(), "data".to_string(), usage)],
    };
    let finished = search.take_index_event(done).unwrap();
    assert_eq!((finished.file_count, finished.drive_count), (0, 0));
    search.finish_indexing(finished, Ok(()));
    assert!(!search.is_indexing());
    assert_eq!(search.db.total_files(), 1);
    assert_eq!(search.db.entries[0].1.rel_path, "old");
    assert_eq!(search.db.usage("D:", "data"), None);
}

#[test]
fn indexing_replaces_what_its_volumes_held() {
    let mut search = ReverseSearchState::new(IndexDb::default());
    search.index_folders.push("f".to_string());
    for (name, content) in [("old", b"one"), ("new", b"two")] {
        search.start_indexing();
        let files = vec![entry(&format!(r"D:\{name}"), 3)];
        let entries = index_entries(&files, &vec![Some(full_hash(content))], &volumes());
        let done = IndexEvent::Done { entries, elapsed_ms: 1, usage: Vec::new() };
        let finished = search.take_index_event(done).unwrap();
        search.finish_indexing(finished, Err("disk full".to_string()));
    }
    assert_eq!(search.db.total_files(), 1);
    assert!(search.status.as_deref().unwrap().contains("disk full"));
}

#[test]
fn files_are_indexed_by_hash_and_place() {
    let files = vec![entry(r"C:\a", 1), entry(r"D:\x\b", 2), entry(r"D:\c", 3), entry("e", 4)];
    assert_eq!(drives_of(&files), ["C:", "D:", ""]);
    let hashes = vec![Some([1; 32]), Some([2; 32]), None, Some([4; 32])];
    let entries = index_entries(&files, &hashes, &volumes());
    assert_eq!(entries.len(), 2, "unreadable files and unknown drives are left out");
    assert_eq!(entries[1].0, "02".repeat(32));
    assert_eq!(entries[1].1.rel_path, r"x\b");
    assert_eq!((entries[1].1.size, entries[1].1.volume_label.as_str()), (2, "data"));
    assert!(index_entry(&files[3], &[0; 32], &volumes()).is_none());
    assert!(progress_after(200, 500).is_some() && progress_after(201, 500).is_none());
    let space = DiskSpace { free: 3, total: 8, cluster: 1 };
    assert_eq!(
        volume_usage("C:", Some(space), 6),
        Some(VolumeUsage { total: 8, free: 3, recorded_at: 6 })
    );
    assert_eq!(volume_usage("", Some(space), 6), None);
    assert_eq!(volume_usage("C:", None, 6), None);
}

#[test]
fn the_index_is_summed_up() {
    let mut db = IndexDb::default();
    assert_eq!(summarize(&db), "No drives indexed yet.");
    let file = IndexedFile {
        volume_label: "data".to_string(),
        drive_letter: "D:".to_string(),
        rel_path: "a".to_string(),
        size: 1,
        modified: 0,
    };
    let volume = volume_of(&file);
    assert!(volume.contains("D:") && volume.contains("data"), "{volume}");
    db.upsert(vec![("h".to_string(), file)]);
    let text = summarize(&db);
    assert!(text.starts_with("Indexed: ") && text.ends_with(" 1 file(s) total."), "{text}");
}

#[test]
fn three_clicks_on_a_column_come_round() {
    let first = next_direction(None);
    assert_eq!(first, Some(SortDirection::Asc));
    let second = next_direction(first);
    assert_eq!(second, Some(SortDirection::Desc));
    assert_eq!(next_direction(second), None);
}

#[test]
fn the_question_before_a_delete_depends_on_the_way() {
    assert_eq!(
        ask(true, 3, "5 B"),
        "Permanently delete 3 file(s) (5 B)? They will not go to the Recycle Bin and cannot be \
         recovered."
    );
    assert!(ask(false, 1, "5 B").starts_with("Move 1 file(s) (5 B) to the trash?"));
}

#[test]
fn folders_are_added_once() {
    let mut list = vec!["a".to_string()];
    add_folders(&mut list, vec!["b".to_string(), "a".to_string(), "b".to_string()]);
    assert_eq!(list, ["a", "b"]);
    assert_eq!(PickPurpose::ScanFolders.kind(), PickKind::Folders);
    assert_eq!(PickPurpose::FillTarget.kind(), PickKind::Folder);
    assert_eq!(PickPurpose::SearchFile.kind(), PickKind::File);
}

#[test]
fn the_grid_breaks_groups_into_rows() {
    let groups = vec![
        DupeGroup { hash: [0; 32], files: vec![entry("x/a", 1), entry("x/b", 1), entry("c", 1)] },
        DupeGroup { hash: [1; 32], files: vec![entry("d", 1), entry("e", 1)] },
    ];
    let rows = build_rows(&groups, false, false, 2);
    let shape: Vec<(usize, bool)> =
        rows.iter().map(|r| (r.entries.len(), r.is_group_start)).collect();
    assert_eq!(shape, [(2, true), (1, false), (2, true)]);
    assert_eq!(rows[0].entries[0].file_name, "a");
    assert!(rows[0].entries[0].is_original && !rows[0].entries[1].is_original);
    let copies = build_rows(&groups, false, true, 2);
    assert_eq!(copies.len(), 2);
    assert_eq!(copies[0].entries.len(), 2);
    assert!(copies.iter().all(|r| r.entries.iter().all(|e| !e.is_original)));
}

#[test]
fn long_names_are_cut() {
    assert_eq!(truncate("short", 10), "short");
    let cut = truncate("\u{e4}\u{f6}\u{fc} and so on", 5);
    assert_eq!(cut.chars().count(), 5);
    assert!(cut.starts_with("\u{e4}\u{f6}\u{fc}"));
}

#[test]
fn icons_go_by_the_extension() {
    assert_eq!(kind_of_name("a.MP4"), FileKind::Movie);
    assert_eq!(kind_of_name("a.mp3"), FileKind::Music);
    assert_eq!(kind_of_name("a.pdf"), FileKind::Pdf);
    assert_eq!(kind_of_name("a.zip"), FileKind::Archive);
    assert_eq!(kind_of_name("a.rs"), FileKind::Code);
    assert_eq!(kind_of_name("noextension"), FileKind::Other);
}

#[test]
fn the_extremes_of_similar_media_are_marked() {
    let media = |size: u64, created: i128, modified: i128, side: u32| MediaEntry {
        path: "m".to_string(),
        size,
        created,
        modified,
        width: side,
        height: side,
    };
    let group = SimilarGroup { files: vec![media(5, 3, 9, 1), media(9, 1, 8, 2), media(7, 2, 7, 3)] };
    assert_eq!(
        GroupHighlights::compute(&group),
        GroupHighlights {
            largest_size: 1,
            highest_resolution: 2,
            oldest_created: 1,
            oldest_modified: 2,
        }
    );
}

#[test]
fn a_thumbnail_is_asked_for_once() {
    let mut cache = ThumbnailCache::default();
    assert_eq!(cache.get_or_request("a.jpg"), (ThumbState::Loading, true));
    assert_eq!(cache.get_or_request("a.jpg"), (ThumbState::Loading, false));
    assert_eq!(cache.get_or_request("a.txt"), (ThumbState::Unsupported, false));
    cache.take_decoded("a.jpg", true);
    assert_eq!(cache.get_or_request("a.jpg"), (ThumbState::Ready, false));
    assert_eq!(cache.get_or_request("b.jpg"), (ThumbState::Loading, true));
    cache.take_decoded("b.jpg", false);
    assert_eq!(cache.get_or_request("b.jpg"), (ThumbState::Failed, false));
}

#[test]
fn a_thumbnail_fits_its_square() {
    let mut png = Cursor::new(Vec::new());
    RgbImage::from_pixel(512, 256, Rgb([9, 8, 7])).write_to(&mut png, ImageFormat::Png).unwrap();
    let thumb = decode_thumbnail("a.png", png.get_ref()).unwrap();
    assert_eq!((thumb.width, thumb.height), (128, 64));
    assert_eq!(thumb.rgba.len(), 4 * 128 * 64);
    assert_eq!(thumb.rgba[..4], [9, 8, 7, 255]);
    assert_eq!(decode_thumbnail("a.png", b"no picture"), None);
    assert_eq!(decode_thumbnail("png", png.get_ref()), None);
    assert_eq!(decode_thumbnail("a.txt", png.get_ref()), None);
}

#[test]
fn a_picture_too_large_for_its_sums_has_no_thumbnail() {
    // With 16 bits, up to 65,536 pixels go into one.
    assert!(fits_thumbnail(32_768, 32_768, 6, 128));
    assert!(!fits_thumbnail(32_896, 32_896, 6, 128));
    assert!(fits_thumbnail(32_896, 32_896, 2, 128));
    assert!(!fits_thumbnail(u32::MAX, u32::MAX, 2, 128));
    assert!(fits_thumbnail(0, 40_000, 6, 128));
    // A narrow picture keeps one pixel across.
    assert!(fits_thumbnail(1, 1_000_000, 6, 128));
    let narrow: ImageBuffer<Luma<u16>, Vec<u16>> = ImageBuffer::new(140, 65_536);
    assert!(!fits_thumbnail(140, 65_536, 4, 128));
    let mut png = Cursor::new(Vec::new());
    narrow.write_to(&mut png, ImageFormat::Png).unwrap();
    assert_eq!(decode_thumbnail("a.png", png.get_ref()), None);
    let white: ImageBuffer<Luma<u16>, Vec<u16>> = ImageBuffer::from_pixel(100, 32_768, Luma([65_535]));
    let mut png = Cursor::new(Vec::new());
    white.write_to(&mut png, ImageFormat::Png).unwrap();
    let picture = Picture::load("png", png.get_ref()).unwrap();
    assert_eq!(shrink_picture(&picture).unwrap().rgba, vec![255; 4 * 128]);
}
