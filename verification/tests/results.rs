use dupe_rs::app::{SortColumn, SortDirection};
use dupe_rs::model::{DupeGroup, FileEntry, MediaEntry, SimilarGroup};
use dupe_rs::selection::{
    compute_visible_entries, compute_visible_media_entries, filter_by_name_pattern,
    group_looks_like_name_copy,
};
use dupe_rs::stats::{compute, compute_similar, ScanStats};
use dupe_rs::view_cache::{build_rows, ExactRowsCache};

fn named(name: &str) -> FileEntry {
    FileEntry { path: name.to_string(), size: 1, created: 0, modified: 0 }
}

fn sized(name: &str, size: u64) -> FileEntry {
    FileEntry { path: name.to_string(), size, created: 0, modified: 0 }
}

fn file(name: &str, size: u64, modified_offset_secs: i128) -> FileEntry {
    FileEntry {
        path: name.to_string(),
        size,
        created: modified_offset_secs * 1_000_000_000,
        modified: modified_offset_secs * 1_000_000_000,
    }
}

#[test]
fn group_with_copy_named_duplicate_is_flagged() {
    let group = DupeGroup {
        hash: [0; 32],
        files: vec![named("photo.jpg"), named("photo (2).jpg")],
    };
    assert!(group_looks_like_name_copy(&group));
}

#[test]
fn group_with_unrelated_names_is_not_flagged() {
    let group = DupeGroup {
        hash: [0; 32],
        files: vec![named("invoice.pdf"), named("receipt.pdf")],
    };
    assert!(!group_looks_like_name_copy(&group));
}

#[test]
fn filter_by_name_pattern_keeps_only_matching_groups_when_enabled() {
    let groups = vec![
        DupeGroup {
            hash: [0; 32],
            files: vec![named("photo.jpg"), named("photo (2).jpg")],
        },
        DupeGroup {
            hash: [1; 32],
            files: vec![named("invoice.pdf"), named("receipt.pdf")],
        },
    ];
    assert_eq!(filter_by_name_pattern(&groups, false).len(), 2);
    assert_eq!(filter_by_name_pattern(&groups, true).len(), 1);
}

#[test]
fn visible_entries_drop_the_originals_on_request() {
    let group = DupeGroup { hash: [0; 32], files: vec![named("a"), named("b"), named("c")] };
    let all: Vec<&str> =
        compute_visible_entries(&vec![&group], false).iter().map(|f| f.path.as_str()).collect();
    assert_eq!(all, vec!["a", "b", "c"]);
    let copies: Vec<&str> =
        compute_visible_entries(&vec![&group], true).iter().map(|f| f.path.as_str()).collect();
    assert_eq!(copies, vec!["b", "c"]);
}

fn media(name: &str, size: u64) -> MediaEntry {
    MediaEntry { path: name.to_string(), size, created: 0, modified: 0, width: 4, height: 3 }
}

#[test]
fn visible_media_entries_drop_the_originals_on_request() {
    let group = SimilarGroup { files: vec![media("a.jpg", 9), media("b.jpg", 5)] };
    assert_eq!(compute_visible_media_entries(&vec![&group], false).len(), 2);
    let copies = compute_visible_media_entries(&vec![&group], true);
    assert_eq!(copies.len(), 1);
    assert_eq!(copies[0].path, "b.jpg");
}

#[test]
fn computes_wasted_space_as_sum_of_non_original_files() {
    let groups = vec![
        DupeGroup {
            hash: [0; 32],
            files: vec![sized("a", 100), sized("b", 100), sized("c", 100)],
        },
        DupeGroup {
            hash: [1; 32],
            files: vec![sized("d", 50), sized("e", 50)],
        },
    ];
    let stats = compute(&groups);
    assert_eq!(stats.group_count, 2);
    assert_eq!(stats.total_file_count, 5);
    assert_eq!(stats.duplicate_file_count, 3);
    assert_eq!(stats.total_bytes, 400);
    assert_eq!(stats.wasted_bytes, 250);
}

#[test]
fn the_numbers_about_two_lists_add_up() {
    let first = || DupeGroup { hash: [0; 32], files: vec![sized("a", 7), sized("b", 9)] };
    let second = || DupeGroup { hash: [1; 32], files: vec![sized("c", 1), sized("d", 2)] };
    let (x, y, z) = (compute(&[first()]), compute(&[second()]), compute(&[first(), second()]));
    assert_eq!(z.group_count, x.group_count + y.group_count);
    assert_eq!(z.total_file_count, x.total_file_count + y.total_file_count);
    assert_eq!(z.duplicate_file_count, x.duplicate_file_count + y.duplicate_file_count);
    assert_eq!(z.total_bytes, x.total_bytes + y.total_bytes);
    assert_eq!(z.wasted_bytes, x.wasted_bytes + y.wasted_bytes);
    assert_eq!(z.total_bytes, z.wasted_bytes + 7 + 1);
}

#[test]
fn empty_groups_produce_zeroed_stats() {
    assert_eq!(compute(&[]), ScanStats::default());
}

#[test]
fn similar_groups_are_counted_by_their_own_sizes() {
    let groups = vec![SimilarGroup { files: vec![media("a.jpg", 90), media("b.jpg", 40)] }];
    let stats = compute_similar(&groups);
    assert_eq!(stats.group_count, 1);
    assert_eq!(stats.total_file_count, 2);
    assert_eq!(stats.duplicate_file_count, 1);
    assert_eq!(stats.total_bytes, 130);
    assert_eq!(stats.wasted_bytes, 40);
    assert!(stats.wasted_bytes <= stats.total_bytes);
}

#[test]
fn skips_originals_when_only_dup_is_set() {
    let groups = vec![DupeGroup {
        hash: [0; 32],
        files: vec![file("a.txt", 10, 0), file("b.txt", 10, 1)],
    }];
    let rows = build_rows(&groups, false, true, None);
    assert_eq!(rows.len(), 1);
    assert_eq!(rows[0].path, "b.txt");
}

#[test]
fn marks_last_file_in_each_group() {
    let groups = vec![DupeGroup {
        hash: [0; 32],
        files: vec![file("a.txt", 10, 0), file("b.txt", 10, 1), file("c.txt", 10, 2)],
    }];
    let rows = build_rows(&groups, false, false, None);
    assert!(!rows[0].is_last_in_group);
    assert!(!rows[1].is_last_in_group);
    assert!(rows[2].is_last_in_group);
}

#[test]
fn sorts_groups_by_size_using_the_original_file() {
    let groups = vec![
        DupeGroup {
            hash: [0; 32],
            files: vec![file("big.txt", 100, 0), file("big2.txt", 100, 1)],
        },
        DupeGroup {
            hash: [1; 32],
            files: vec![file("small.txt", 10, 0), file("small2.txt", 10, 1)],
        },
    ];
    let rows = build_rows(&groups, false, false, Some((SortColumn::Size, SortDirection::Asc)));
    assert_eq!(rows[0].path, "small.txt");
    assert_eq!(rows[2].path, "big.txt");
}

#[test]
fn filters_by_name_pattern_when_enabled() {
    let groups = vec![
        DupeGroup {
            hash: [0; 32],
            files: vec![file("photo.jpg", 10, 0), file("photo (2).jpg", 10, 1)],
        },
        DupeGroup {
            hash: [1; 32],
            files: vec![file("invoice.pdf", 10, 0), file("receipt.pdf", 10, 1)],
        },
    ];
    let rows = build_rows(&groups, true, false, None);
    assert_eq!(rows.len(), 2);
    assert!(rows.iter().all(|r| r.group_idx == 0));
}

#[test]
fn marks_the_extremes_of_each_group() {
    let groups = vec![DupeGroup {
        hash: [7; 32],
        files: vec![file("a.txt", 10, 5), file("b.txt", 30, 2), file("c.txt", 20, 9)],
    }];
    let rows = build_rows(&groups, false, false, None);
    let marks: Vec<(bool, bool, bool, bool)> = rows
        .iter()
        .map(|r| (r.is_original, r.is_largest_size, r.is_oldest_created, r.is_oldest_modified))
        .collect();
    assert_eq!(
        marks,
        vec![
            (true, false, false, false),
            (false, true, true, true),
            (false, false, false, false),
        ]
    );
    assert!(rows[0].is_group_start && !rows[1].is_group_start);
    assert!(rows.iter().all(|r| r.hash == [7; 32]));
}

#[test]
fn a_single_group_needs_no_sorting() {
    let groups = vec![DupeGroup { hash: [0; 32], files: Vec::new() }];
    let sort = Some((SortColumn::Size, SortDirection::Desc));
    assert!(build_rows(&groups, false, false, sort).is_empty());
    assert!(build_rows(&[], true, false, sort).is_empty());
}

#[test]
fn sorts_groups_by_name_downwards() {
    let groups = vec![
        DupeGroup { hash: [0; 32], files: vec![file("a/Alpha.txt", 1, 0), file("b/x.txt", 1, 1)] },
        DupeGroup { hash: [1; 32], files: vec![file("c/beta.txt", 1, 0), file("d/y.txt", 1, 1)] },
    ];
    let rows = build_rows(&groups, false, false, Some((SortColumn::Filename, SortDirection::Desc)));
    assert_eq!(rows[0].path, "c/beta.txt");
    assert_eq!(rows[2].path, "a/Alpha.txt");
}

#[test]
fn the_rows_are_rebuilt_only_for_a_new_key() {
    let mut cache = ExactRowsCache::default();
    let first = vec![DupeGroup { hash: [0; 32], files: vec![named("a"), named("b")] }];
    cache.refresh(&first, 1, false, false, None);
    assert_eq!(cache.rows.len(), 2);
    // Under the same key the rows stay, whatever the groups.
    cache.refresh(&[], 1, false, false, None);
    assert_eq!(cache.rows.len(), 2);
    cache.refresh(&[], 2, false, false, None);
    assert!(cache.rows.is_empty());
    cache.refresh(&first, 2, false, true, None);
    assert_eq!(cache.rows.len(), 1);
}
