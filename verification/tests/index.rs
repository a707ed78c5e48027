use dupe_rs::index_db::{hex_encode, IndexDb, IndexedFile, VolumeUsage};
use dupe_rs::paths::are_same_path;
use dupe_rs::volume::{drive_letter_of, rel_path_of};

fn file(drive: &str, rel: &str) -> IndexedFile {
    file_on(drive, &format!("{drive}-label"), rel)
}

fn file_on(drive: &str, label: &str, rel: &str) -> IndexedFile {
    IndexedFile {
        volume_label: label.to_string(),
        drive_letter: drive.to_string(),
        rel_path: rel.to_string(),
        size: 100,
        modified: 1_000_000_000,
    }
}

#[test]
fn reindexing_a_volume_replaces_its_old_entries_but_keeps_other_drives() {
    let mut db = IndexDb::default();
    db.reindex_volume("D:", "D:-label", vec![("hash1".to_string(), file("D:", "old.jpg"))]);
    db.reindex_volume("E:", "E:-label", vec![("hash2".to_string(), file("E:", "keep.jpg"))]);

    db.reindex_volume("D:", "D:-label", vec![("hash3".to_string(), file("D:", "new.jpg"))]);

    assert!(db.matches("hash1", &file("D:", "nonexistent")).is_empty());
    assert_eq!(db.matches("hash3", &file("D:", "nonexistent")).len(), 1);
    assert_eq!(db.matches("hash2", &file("E:", "nonexistent")).len(), 1);
}

#[test]
fn reindexing_a_letter_under_a_different_volume_label_keeps_the_old_volumes_entries() {
    // Simulates unplugging one physical drive and plugging a different
    // one into the same letter: re-indexing "D:" under the new label
    // "data" must not wipe out what was indexed while "D:" was labeled
    // "500GB-5", since that disk might still be found again later.
    let mut db = IndexDb::default();
    db.reindex_volume(
        "D:",
        "500GB-5",
        vec![("hash1".to_string(), file_on("D:", "500GB-5", "old.jpg"))],
    );

    db.reindex_volume(
        "D:",
        "data",
        vec![("hash2".to_string(), file_on("D:", "data", "new.jpg"))],
    );

    assert_eq!(db.matches("hash1", &file("D:", "nonexistent")).len(), 1);
    assert_eq!(db.matches("hash2", &file("D:", "nonexistent")).len(), 1);
    assert_eq!(
        db.indexed_drives().len(),
        2,
        "both volumes that have ever lived on D: should still be listed"
    );
}

#[test]
fn matches_excludes_the_queried_file_itself() {
    let mut db = IndexDb::default();
    db.reindex_volume(
        "D:",
        "D:-label",
        vec![
            ("hash1".to_string(), file("D:", "a.jpg")),
            ("hash1".to_string(), file("D:", "b.jpg")),
        ],
    );

    let results = db.matches("hash1", &file("D:", "a.jpg"));
    assert_eq!(results.len(), 1);
    assert_eq!(results[0].rel_path, "b.jpg");
}

#[test]
fn matches_does_not_exclude_a_same_named_file_on_a_different_volume() {
    // Two different physical drives can share a drive letter over time
    // and happen to contain a file at the same relative path; the
    // "exclude self" filter must key off the volume label too, not just
    // the letter + path, or it would wrongly drop a real match.
    let mut db = IndexDb::default();
    db.reindex_volume(
        "D:",
        "data",
        vec![("hash1".to_string(), file_on("D:", "data", "a.jpg"))],
    );

    let results = db.matches("hash1", &file_on("D:", "500GB-5", "a.jpg"));
    assert_eq!(results.len(), 1);
}

#[test]
fn upsert_adds_files_and_replaces_same_path_without_wiping_the_volume() {
    let mut db = IndexDb::default();
    db.reindex_volume("D:", "D:-label", vec![("old".to_string(), file("D:", "a.jpg"))]);
    db.reindex_volume(
        "D:",
        "D:-label",
        vec![
            ("old".to_string(), file("D:", "a.jpg")),
            ("keep".to_string(), file("D:", "keep.jpg")),
        ],
    );

    db.upsert(vec![
        ("new".to_string(), file("D:", "a.jpg")),
        ("added".to_string(), file("D:", "b.jpg")),
    ]);

    let probe = file("D:", "nonexistent");
    assert!(db.matches("old", &probe).is_empty());
    assert_eq!(db.matches("new", &probe).len(), 1);
    assert_eq!(db.matches("added", &probe).len(), 1);
    assert_eq!(db.matches("keep", &probe).len(), 1);
    assert_eq!(db.total_files(), 3);
}

#[test]
fn an_empty_index_knows_no_file() {
    let db = IndexDb::default();
    assert_eq!(db.total_files(), 0);
    assert!(db.indexed_drives().is_empty());
    assert!(db.matches("hash1", &file("D:", "a.jpg")).is_empty());
}

#[test]
fn indexed_volumes_are_listed_once_each_as_they_came() {
    let mut db = IndexDb::default();
    db.reindex_volume(
        "E:",
        "E:-label",
        vec![("h".to_string(), file("E:", "a")), ("h".to_string(), file("E:", "b"))],
    );
    db.reindex_volume("D:", "D:-label", vec![("h".to_string(), file("D:", "a"))]);
    assert_eq!(
        db.indexed_drives(),
        vec![
            ("E:".to_string(), "E:-label".to_string()),
            ("D:".to_string(), "D:-label".to_string()),
        ]
    );
}

#[test]
fn an_indexed_file_lies_below_the_root_of_its_drive() {
    assert_eq!(file("D:", r"Photos\a.jpg").absolute_path(), r"D:\Photos\a.jpg");
    for path in [r"D:\Photos\a.jpg", r"D:\a", r"D:\", r"\\server\share\x", r"\rooted", "D:rel", r"\\?\D:\x"] {
        let indexed = file(&drive_letter_of(path), &rel_path_of(path));
        assert!(are_same_path(&indexed.absolute_path(), path), "{path}");
    }
}

#[test]
fn hashes_are_written_in_lower_case_hex() {
    let mut hash = [0u8; 32];
    hash[0] = 0xAB;
    hash[31] = 0x0F;
    let text = hex_encode(&hash);
    assert_eq!(text.len(), 64);
    assert!(text.starts_with("ab00"));
    assert!(text.ends_with("000f"));
    assert_ne!(text, hex_encode(&[0; 32]));
}

#[test]
fn the_last_recorded_usage_of_a_volume_counts() {
    let mut db = IndexDb::default();
    let first = VolumeUsage { total: 100, free: 40, recorded_at: 1 };
    let second = VolumeUsage { total: 100, free: 30, recorded_at: 2 };
    db.set_usage("D:".to_string(), "data".to_string(), first);
    db.set_usage("D:".to_string(), "other".to_string(), first);
    db.set_usage("D:".to_string(), "data".to_string(), second);
    assert_eq!(db.usage("D:", "data"), Some(second));
    assert_eq!(db.usage("D:", "other"), Some(first));
    assert_eq!(db.usage("E:", "data"), None);
}
