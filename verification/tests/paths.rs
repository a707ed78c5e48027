use dupe_rs::paths::{
    are_same_path, extension_of, file_name_of, id_of, join_paths, parent_of, strip_base,
};
use dupe_rs::volume::{drive_letter_of, rel_path_of};

#[test]
fn paths_with_the_same_parts_are_the_same() {
    assert!(are_same_path(r"c:\a\.\b\", "C:/a//b"));
    assert!(are_same_path(r"C:.\x", "c:x"));
    assert!(!are_same_path(r"C:\x", "C:x"));
    assert!(!are_same_path(r".\x", "x"));
    assert!(are_same_path(r"\\server\share\x", "//server/share/x"));
    assert!(are_same_path(r"\\server\share", r"\\server\share\"));
    assert!(!are_same_path(r"\\server\share\x", r"\\SERVER\share\x"));
}

#[test]
fn what_is_taken_as_written_is_told_apart() {
    assert!(are_same_path(r"\\?\c:\a", r"\\?\C:\a"));
    assert!(are_same_path(r"\\?\C:/a", r"\\?\C:\a"));
    assert!(!are_same_path(r"\\?\C:\a/b", r"\\?\C:\a\b"));
    assert!(!are_same_path(r"\\?\C:\a\.\b", r"\\?\C:\a\b"));
    assert!(!are_same_path(r"\\?\C:\a", r"C:\a"));
    assert!(!are_same_path(r"\\?\C:\a", "//?/C:/a"));
    assert!(!are_same_path(r"\\?\UNC\server\share\a", r"\\server\share\a"));
    assert!(are_same_path(r"\\.\COM1", "//./COM1"));
    assert!(!are_same_path(r"\\.\COM1", r"\\?\COM1"));
    assert!(!are_same_path(r"\\?\pictures\a", r"\\?\PICTURES\a"));
}

#[test]
fn a_name_may_hold_any_character() {
    // A zero ends a name in an identity, unless it stands in one.
    assert!(!are_same_path("a\u{0}9b", r"a\b"));
    assert!(!are_same_path("a\u{0}5b", r"a\b"));
    assert!(!are_same_path("a\u{0}", "a"));
    assert!(!are_same_path("\\\\s\\:h\\x", "\\\\s\u{0}\\h\\x"));
    assert!(are_same_path("a\u{0}b/c", "a\u{0}b\\c"));
}

#[test]
fn identities_are_ordered_like_paths() {
    let ascending = [
        r"\\?\a\x", r"\\?\UNC\s\h\x", r"\\?\C:\x", r"\\.\a\x", r"\\s\h\x", r"C:x", r"C:\x",
        r"\x", r".\x", r"..\x", "a", r"a\b", "a\u{0}", "a\u{1}", "a b", "ab",
    ];
    for pair in ascending.windows(2) {
        assert_eq!(id_of(pair[0]) < id_of(pair[1]), pair != ["C:x", r"C:\x"], "{pair:?}");
    }
}

#[test]
fn the_parts_of_special_paths_are_found() {
    assert_eq!(file_name_of(r"\\?\C:\a/b").as_deref(), Some("a/b"));
    assert_eq!(extension_of(r"\\?\C:\a/b.txt").as_deref(), Some("txt"));
    assert_eq!(file_name_of(r"\\?\C:\a\."), None);
    assert_eq!(file_name_of(r"\\.\COM1"), None);
    assert_eq!(file_name_of(r"\\server\share"), None);
    assert_eq!(file_name_of(r"\\.\COM1\a").as_deref(), Some("a"));
    assert_eq!(parent_of(r"\\?\C:\a").as_deref(), Some(r"\\?\C:\"));
    assert_eq!(parent_of(r"\\?\C:\"), None);
    assert_eq!(parent_of(r"\\?\UNC\s\h\x").as_deref(), Some(r"\\?\UNC\s\h\"));
    assert_eq!(parent_of(r"\\.\COM1"), None);
    assert_eq!(parent_of("a").as_deref(), Some(""));
    assert_eq!(parent_of(r"C:a").as_deref(), Some("C:"));
    assert_eq!(strip_base(r"\\?\c:\a\b", r"\\?\C:\").as_deref(), Some(r"a\b"));
    assert_eq!(strip_base(r"C:\a\b", r"\\?\C:\"), None);
}

#[test]
fn joining_leads_on_from_the_folder() {
    assert_eq!(join_paths("C:", "a"), "C:a");
    assert_eq!(join_paths(r"C:\a", "b"), r"C:\a\b");
    assert_eq!(join_paths(r"C:\a", r"\b"), r"C:\b");
    assert_eq!(join_paths(r"C:\a", r"D:\b"), r"D:\b");
    assert_eq!(join_paths("a/", "b"), "a/b");
    assert_eq!(join_paths(r"\\server\share", "a"), r"\\server\share\a");
    assert_eq!(join_paths(r"C:\a", r"..\b"), r"C:\a\..\b");
    // Where the folder is taken as it is written, dots are followed.
    assert_eq!(join_paths(r"\\?\C:\a", r"..\b"), r"\\?\C:\b");
    assert_eq!(join_paths(r"\\?\C:\a", r".\b"), r"\\?\C:\a\b");
    assert_eq!(join_paths(r"\\?\C:\", ".."), r"\\?\C:\");
    assert_eq!(join_paths(r"\\?\C:\a", r"\b"), r"\\?\C:\b");
    assert_eq!(join_paths(r"\\?\C:\a", "b/c"), r"\\?\C:\a\b\c");
    assert_eq!(join_paths(r"\\?\C:", "b"), r"\\?\C:\b");
    assert_eq!(join_paths(r"\\?\C:\a/b", "c"), r"\\?\C:\a/b\c");
    assert_eq!(join_paths(r"\\?\C:\a", ""), r"\\?\C:\a\");
    // The folder of a joined name is the folder.
    for folder in [r"C:\d", r"\\?\C:\d\", r"\\s\h", r"\\.\COM1", "d", r"\", r"C:"] {
        let up = parent_of(&join_paths(folder, "a.txt")).unwrap();
        assert!(are_same_path(&up, folder), "{folder}");
    }
}

#[test]
fn every_prefix_but_a_share_counts_as_a_drive() {
    assert_eq!(drive_letter_of(r"\\?\pictures\a"), r"\\?\pictures");
    assert_eq!(drive_letter_of(r"\\?\D:x"), r"\\?\D:x");
    assert_eq!(drive_letter_of(r"\\.\COM1\a"), r"\\.\COM1");
    assert_eq!(drive_letter_of("//./COM1"), "//./COM1");
    assert_eq!(drive_letter_of(r"\\?\"), r"\\?");
    assert_eq!(drive_letter_of(r"\\?\UNC\server\share\a"), "");
    assert_eq!(drive_letter_of(r"\\server\share\a"), "");
    assert_eq!(rel_path_of(r"\\?\pictures\a\b"), r"a\b");
    assert_eq!(rel_path_of(r"\\?\UNC\server\share\a"), r"\\?\UNC\server\share\a");
    for path in [
        r"D:\a\b", r"\\?\d:\a\b", r"\\?\D:/a", r"\\?\pictures\a", r"\\.\COM1\a", r"\\.\COM1",
        r"\\?\UNC\s\h\a", r"\\s\h\a", r"\a", r"D:a", r"\\?\D:", r"\\?\a/\b",
    ] {
        let back = join_paths(&format!("{}\\", drive_letter_of(path)), &rel_path_of(path));
        assert!(are_same_path(&back, path), "{path}");
    }
}
