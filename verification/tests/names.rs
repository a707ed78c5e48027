use dupe_rs::archive::{is_archive_part, split_archive_name};
use dupe_rs::config::{
    name_matches, parse_extension_list, ExtensionFilter, ScanConfig, ScanMode, SizeUnit,
};
use dupe_rs::namematch::{looks_like_copy, strip_copy_decorations};
use dupe_rs::volume::{drive_letter_of, drive_root, rel_path_of, volume_info};

#[test]
fn recognises_rar_and_split_volumes() {
    assert_eq!(split_archive_name("Movie.part01.rar"), Some(("Movie", ".part01.rar")));
    assert_eq!(split_archive_name("movie.rar"), Some(("movie", ".rar")));
    assert_eq!(split_archive_name("movie.R00"), Some(("movie", ".R00")));
    assert_eq!(split_archive_name("movie.r123"), Some(("movie", ".r123")));
    assert_eq!(split_archive_name("backup.7z.001"), Some(("backup", ".7z.001")));
    assert_eq!(split_archive_name("backup.zip.002"), Some(("backup", ".zip.002")));
    assert_eq!(split_archive_name("backup.z01"), Some(("backup", ".z01")));
}

#[test]
fn ignores_ordinary_files() {
    for name in [
        "photo.jpg",
        "notes.txt",
        "archive.zip",
        "song.r",
        "data.001",
        "readme",
        ".rar",
        "report.rtf",
        "movie.part.rar.txt",
    ] {
        assert!(!is_archive_part(name), "{name}");
    }
}

#[test]
fn a_split_archive_name_joins_back_to_the_name() {
    for name in ["Movie.part01.rar", "x.rar", "\u{e4}.7z.001", "a.b.z99"] {
        let (stem, suffix) = split_archive_name(name).unwrap();
        assert_eq!(format!("{stem}{suffix}"), name);
    }
}

#[test]
fn a_clash_mark_keeps_an_archive_in_its_set() {
    let (stem, suffix) = split_archive_name("movie.part2.rar").unwrap();
    let renamed = format!("{stem} (2){suffix}");
    assert_eq!(split_archive_name(&renamed), Some(("movie (2)", ".part2.rar")));
}

#[test]
fn name_filter_is_a_substring_or_a_whole_name_wildcard() {
    assert!(name_matches("", "anything.txt"));
    assert!(name_matches("thumbs", "Thumbs.db"));
    assert!(!name_matches("thumbs", "photo.jpg"));
    assert!(name_matches("*.tmp", "report.TMP"));
    assert!(!name_matches("*.tmp", "report.tmp.bak"));
    assert!(name_matches("img_????.jpg", "IMG_0042.jpg"));
    assert!(!name_matches("img_????.jpg", "IMG_42.jpg"));
    assert!(name_matches("*copy*", "photo - copy (2).png"));
}

#[test]
fn name_filter_lowers_letters_beyond_ascii() {
    assert!(name_matches("\u{c4}PFEL", "gr\u{fc}ne \u{e4}pfel.txt"));
    assert!(name_matches("*\u{d6}l*", "oliven\u{f6}L.md"));
}

#[test]
fn extension_list_is_trimmed_lowered_and_freed_of_dots() {
    let list = parse_extension_list(" .JPG, png ,, .tar ");
    assert_eq!(list, vec!["jpg", "png", "tar"]);
    assert!(parse_extension_list(" , ").is_empty());
    // Lists joined by a comma name both.
    let (a, b) = (" .JPG,,png", "tar.gz , .x");
    let both = parse_extension_list(&format!("{a},{b}"));
    assert_eq!(both, [parse_extension_list(a), parse_extension_list(b)].concat());
    assert_eq!(both, ["jpg", "png", "tar.gz", "x"]);
    // Whatever the letters are.
    assert_eq!(parse_extension_list(".\u{c4}\u{d6}, \u{130}X ,..,\u{3a3}\u{3a3}"), [
        "\u{e4}\u{f6}",
        "i\u{307}x",
        "\u{3c3}\u{3c2}",
    ]);
}

#[test]
fn extension_filter_takes_or_leaves_the_listed_ones() {
    let listed = || vec!["jpg".to_string(), "png".to_string()];
    assert!(ExtensionFilter::All.matches(None));
    assert!(ExtensionFilter::All.matches(Some("exe")));
    let taking = ExtensionFilter::Include(listed());
    assert!(taking.matches(Some("jpg")));
    assert!(!taking.matches(Some("gif")));
    assert!(!taking.matches(None));
    let leaving = ExtensionFilter::Exclude(listed());
    assert!(!leaving.matches(Some("png")));
    assert!(leaving.matches(Some("gif")));
    assert!(leaving.matches(None));
}

#[test]
fn size_units_are_powers_of_1024() {
    let units: Vec<(&str, u64)> =
        SizeUnit::ALL.iter().map(|u| (u.label(), u.multiplier())).collect();
    assert_eq!(
        units,
        vec![("B", 1), ("KB", 1024), ("MB", 1_048_576), ("GB", 1_073_741_824)]
    );
}

#[test]
fn default_config_scans_for_exact_copies() {
    let config = ScanConfig::default();
    assert!(config.folders.is_empty());
    assert_eq!(config.mode, ScanMode::ExactContent);
    assert_eq!(config.min_size, None);
    assert_eq!(config.max_size, None);
    assert!(matches!(config.extensions, ExtensionFilter::All));
}

#[test]
fn detects_windows_style_counter_suffix() {
    assert!(looks_like_copy("photo", "photo (2)"));
    assert!(looks_like_copy("photo", "photo (17)"));
}

#[test]
fn detects_german_kopie_suffix_with_and_without_counter() {
    assert!(looks_like_copy("Rechnung", "Rechnung - Kopie"));
    assert!(looks_like_copy("Rechnung", "Rechnung - Kopie (2)"));
}

#[test]
fn detects_macos_style_copy_suffix() {
    assert!(looks_like_copy("report", "report copy"));
    assert!(looks_like_copy("report", "report copy 2"));
}

#[test]
fn detects_copy_of_prefix() {
    assert!(looks_like_copy("Budget", "Copy of Budget"));
    assert!(looks_like_copy("Budget", "Kopie von Budget"));
}

#[test]
fn identical_names_are_not_a_copy_of_each_other() {
    assert!(!looks_like_copy("photo", "photo"));
    assert!(!looks_like_copy("Photo", "photo"));
}

#[test]
fn unrelated_names_are_not_flagged() {
    assert!(!looks_like_copy("report_final", "report_draft"));
    assert!(!looks_like_copy("a", "b"));
}

#[test]
fn being_a_copy_goes_both_ways() {
    for (a, b) in [("photo", "photo (2)"), ("a", "b"), ("Copy of x", "x copy 3")] {
        assert_eq!(looks_like_copy(a, b), looks_like_copy(b, a));
    }
}

#[test]
fn decorations_are_stripped_down_to_the_base_name() {
    assert_eq!(strip_copy_decorations("Rechnung - Kopie (2)"), "Rechnung");
    assert_eq!(strip_copy_decorations("photo (2)"), "photo");
    assert_eq!(strip_copy_decorations("plain"), "plain");
    // The blank that a marker leaves doesn't hide the counter before it.
    assert_eq!(strip_copy_decorations("photo (2)  copy"), "photo");
    assert!(looks_like_copy("photo", "photo (2)  copy"));
}

#[test]
fn extracts_drive_letter_from_windows_path() {
    assert_eq!(drive_letter_of(r"D:\Photos\a.jpg"), "D:");
}

#[test]
fn returns_empty_string_for_relative_path() {
    assert_eq!(drive_letter_of("Photos/a.jpg"), "");
}

#[test]
fn splits_a_path_into_drive_and_place_on_it() {
    assert_eq!(drive_root("D:"), r"D:\");
    assert_eq!(rel_path_of(r"D:\Photos\a.jpg"), r"Photos\a.jpg");
    assert_eq!(rel_path_of(r"Photos\a.jpg"), r"Photos\a.jpg");
    assert_eq!(drive_letter_of(r"\\?\D:\Photos\a.jpg"), r"\\?\D:");
    assert_eq!(rel_path_of(r"\\?\D:\Photos\a.jpg"), r"Photos\a.jpg");
    assert_eq!(drive_letter_of(r"\\server\share\a.jpg"), "");
}

#[test]
fn a_volume_without_a_label_is_named_after_its_letter() {
    assert_eq!(volume_info("D:", Some("data".to_string())).label, "data");
    let unnamed = volume_info("D:", None);
    assert_eq!(unnamed.drive_letter, "D:");
    assert_eq!(unnamed.label, volume_info("D:", Some(String::new())).label);
}
