use dupe_rs::app::{
    apply_criterion_selection, AppTab, ConfirmAction, DeleteRequest, DupeApp, ExtensionMode, Keys,
    PickFollowUp, ScanState, SelectCriterion, SortColumn, SortDirection, TimedPath, ViewMode,
};
use dupe_rs::config::{ExtensionFilter, ScanMode};
use dupe_rs::index_db::IndexDb;
use dupe_rs::model::{DeleteEvent, DupeGroup, FileEntry, MediaEntry, ScanEvent, SimilarGroup};
use dupe_rs::scanner::hash::{full_hash, partial_hash};
use dupe_rs::scanner::run_scan;
use dupe_rs::scanner::walk::{walk_and_filter, FoundFile, Walked};
use dupe_rs::sets::PathSet;
use dupe_rs::sound::Sound;
use dupe_rs::taskbar::{Fraction, TaskbarProgress};
use dupe_rs::ui::confirm_dialog::describe;
use dupe_rs::ui::delete_confirm::confirm_text;
use dupe_rs::ui::dialogs::PickPurpose;
use std::collections::BTreeMap;

/// A disk that is held in memory: the files by their paths.
type Disk = BTreeMap<String, Vec<u8>>;

fn disk(files: &[(&str, &[u8])]) -> Disk {
    files.iter().map(|(path, content)| (path.to_string(), content.to_vec())).collect()
}

fn app() -> DupeApp {
    let mut app = DupeApp::new(IndexDb::default());
    // Keep test runs quiet.
    app.play_sounds = false;
    app.config.folders.push(r"C:\d".to_string());
    app
}

/// Scans `disk` and hands the events to the app.
fn scan(app: &mut DupeApp, disk: &Disk) {
    app.start_scan(None, None);
    assert!(app.is_scanning());
    let steps = disk
        .iter()
        .map(|(path, content)| {
            Walked::File(FoundFile {
                path: path.clone(),
                size: content.len() as u64,
                modified: Some(0),
                created: Some(0),
            })
        })
        .collect();
    let (files, events) = walk_and_filter(steps, &app.config);
    for event in events {
        app.take_scan_event(event);
    }
    let partial = files.iter().map(|f| Some(partial_hash(&disk[&f.path]))).collect();
    let full = files.iter().map(|f| Some(full_hash(&disk[&f.path]))).collect();
    for group in run_scan(&files, &partial, &full, app.config.same_folder_only) {
        app.take_scan_event(ScanEvent::GroupFound(group));
    }
    app.take_scan_event(ScanEvent::Done { elapsed_ms: 5 });
    assert!(matches!(app.scan_state, ScanState::Done { .. }));
    app.refresh_exact_rows_cache();
}

/// Deletes the files of a request from `disk`, telling the app.
fn delete(app: &mut DupeApp, request: DeleteRequest, disk: &mut Disk) {
    for path in request.paths {
        app.take_delete_event(request.id, DeleteEvent::FileStarted { path: path.clone() });
        let deleted = disk.remove(&path).is_some();
        app.take_delete_event(request.id, DeleteEvent::FileDone { path, deleted });
    }
    app.take_delete_event(request.id, DeleteEvent::Finished);
    app.refresh_exact_rows_cache();
}

#[test]
fn scan_button_is_a_no_op_until_a_folder_is_added() {
    let mut app = DupeApp::new(IndexDb::default());
    assert!(!app.can_scan(), "Scan must be disabled with no folders configured");
    let follow_up = app.take_picked(PickPurpose::ScanFolders, vec![r"C:\d".to_string()]);
    assert!(matches!(follow_up, PickFollowUp::Nothing));
    assert_eq!(app.config.folders, vec![r"C:\d".to_string()]);
    assert!(app.can_scan());
    app.start_scan(None, None);
    assert!(app.is_scanning() && !app.can_scan());
}

#[test]
fn scanning_via_ui_finds_duplicates_and_populates_the_table() {
    let files = disk(&[
        (r"C:\d\a.txt", b"duplicate payload"),
        (r"C:\d\b.txt", b"duplicate payload"),
        (r"C:\d\unique.txt", b"nothing else like this"),
    ]);
    let mut app = app();
    scan(&mut app, &files);

    assert_eq!(app.groups.len(), 1);
    assert_eq!(app.groups[0].files.len(), 2);
    assert!(app.exact_rows_cache.rows.iter().any(|r| r.path.ends_with("b.txt")));
}

#[test]
fn select_all_then_delete_key_confirms_and_moves_files_to_trash() {
    let mut files = disk(&[
        (r"C:\d\a.txt", b"duplicate payload"),
        (r"C:\d\b.txt", b"duplicate payload"),
    ]);
    let mut app = app();
    scan(&mut app, &files);
    assert_eq!(app.groups.len(), 1);

    app.take_keys(Keys { ctrl_a: true, ..NO_KEYS });
    assert_eq!(app.selection.len(), 2);

    app.take_keys(Keys { delete: true, ..NO_KEYS });
    let confirm = app.delete_confirm.as_ref().unwrap();
    assert_eq!(confirm.total_size, 34);
    assert!(confirm_text(confirm).starts_with("Move 2 file(s) (34 B) to the trash?"));

    let request = app.confirm_delete().unwrap();
    assert!(!request.permanent);
    delete(&mut app, request, &mut files);

    assert!(app.delete_confirm.is_none() && !app.is_deleting());
    assert!(files.is_empty());
    assert!(app.groups.is_empty());
    assert!(app.exact_rows_cache.rows.is_empty());
}

#[test]
fn permanent_delete_checkbox_removes_files_without_the_trash() {
    let mut files = disk(&[
        (r"C:\d\a.txt", b"duplicate payload"),
        (r"C:\d\b.txt", b"duplicate payload"),
    ]);
    let mut app = app();
    scan(&mut app, &files);

    app.select_ctrl_a();
    app.delete_selected();
    assert!(!app.delete_confirm.as_ref().unwrap().permanent);
    app.delete_confirm.as_mut().unwrap().permanent = true;
    let request = app.confirm_delete().unwrap();
    assert!(request.permanent);
    delete(&mut app, request, &mut files);

    assert!(files.is_empty());
    assert!(app.groups.is_empty());
    assert!(app
        .status_message
        .as_deref()
        .is_some_and(|m| m.starts_with("Permanently deleted 2 file(s)")));
}

#[test]
fn a_second_delete_can_start_while_the_first_is_still_running() {
    let paths = [r"C:\d\a1.txt", r"C:\d\a2.txt", r"C:\d\b1.txt", r"C:\d\b2.txt"];
    let mut files = disk(&[
        (paths[0], b"first duplicate payload"),
        (paths[1], b"first duplicate payload"),
        (paths[2], b"second duplicate payload!"),
        (paths[3], b"second duplicate payload!"),
    ]);
    let mut app = app();
    scan(&mut app, &files);
    assert_eq!(app.groups.len(), 2);

    let mut requests = Vec::new();
    for (to_delete, other) in [(paths[1], paths[0]), (paths[3], paths[2])] {
        app.selection.insert(to_delete.to_string());
        app.selection.insert(other.to_string());
        app.delete_selected();
        let confirm = app.delete_confirm.as_mut().unwrap();
        // Only the file not already queued by an earlier job is included.
        confirm.paths.retain(|p| p == to_delete);
        confirm.permanent = true;
        requests.push(app.confirm_delete().unwrap());
        app.selection.clear();
    }
    assert!(app.is_deleting());
    assert!(app.delete_confirm.is_none());
    assert_ne!(requests[0].id, requests[1].id);
    // A file in a job's hands is not deleted once more.
    assert!(app.is_queued_for_delete(paths[1]) && !app.is_queued_for_delete(paths[0]));
    app.selection.insert(paths[1].to_string());
    app.delete_selected();
    assert!(app.delete_confirm.is_none());

    for request in requests {
        delete(&mut app, request, &mut files);
    }
    assert!(!app.is_deleting());
    assert!(files.contains_key(paths[0]));
    assert!(!files.contains_key(paths[1]));
    assert!(files.contains_key(paths[2]));
    assert!(!files.contains_key(paths[3]));
    assert!(app.groups.is_empty());
}

#[test]
fn same_folder_only_checkbox_excludes_cross_folder_matches_live() {
    let files = disk(&[
        (r"C:\d\a\photo.jpg", b"cross folder duplicate"),
        (r"C:\d\b\photo_copy.jpg", b"cross folder duplicate"),
    ]);
    let mut app = app();
    scan(&mut app, &files);
    assert_eq!(app.groups.len(), 1, "cross-folder dupes found by default");

    app.config.same_folder_only = true;
    scan(&mut app, &files);
    assert!(
        app.groups.is_empty(),
        "toggling 'Same folder only' must drop the cross-folder match"
    );
}

#[test]
fn bulk_selection_buttons_and_view_mode_toggle_are_clickable() {
    let files = disk(&[
        (r"C:\d\a.txt", b"duplicate payload"),
        (r"C:\d\b.txt", b"duplicate payload"),
    ]);
    let mut app = app();
    scan(&mut app, &files);

    app.select_all_shown();
    assert_eq!(app.selection.len(), 2);
    let shown = app.summarize_shown();
    assert_eq!((shown.count, shown.size), (2, 34));
    assert_eq!((shown.selected_count, shown.selected_size), (2, 34));

    app.selection.clear();
    assert!(app.selection.is_empty());
    assert_eq!(app.summarize_shown().selected_count, 0);

    assert_eq!(app.view_mode, ViewMode::Table);
    app.view_mode = ViewMode::Grid;
    assert_eq!(app.view_mode, ViewMode::Grid);
}

#[test]
fn reverse_search_tab_switches_the_central_panel_and_back() {
    let mut app = app();
    assert_eq!(app.tab, AppTab::Scan);
    app.tab = AppTab::ReverseSearch;
    assert_eq!(app.tab, AppTab::ReverseSearch);
    app.tab = AppTab::Scan;
    assert_eq!(app.tab, AppTab::Scan);
}

const NO_KEYS: Keys = Keys { typing: false, ctrl_a: false, escape: false, delete: false };

#[test]
fn keys_mean_nothing_elsewhere() {
    let mut app = grouped_app();
    app.refresh_exact_rows_cache();
    let all = Keys { ctrl_a: true, delete: true, ..NO_KEYS };
    app.take_keys(Keys { typing: true, ..all });
    assert!(app.selection.is_empty(), "a text field has the keyboard");
    app.tab = AppTab::DriveFill;
    app.take_keys(all);
    assert!(app.selection.is_empty() && app.delete_confirm.is_none());
    app.tab = AppTab::Scan;
    app.take_keys(all);
    assert_eq!(app.selection.len(), 5);
    assert!(app.delete_confirm.is_some());
    app.take_keys(Keys { escape: true, ..NO_KEYS });
    assert!(app.selection.is_empty());
}

fn entry(path: &str, size: u64, modified: i128) -> FileEntry {
    FileEntry { path: path.to_string(), size, created: modified, modified }
}

fn group(files: Vec<FileEntry>) -> DupeGroup {
    DupeGroup { hash: [0; 32], files }
}

#[test]
fn a_scan_takes_its_settings_from_the_panel() {
    let mut app = app();
    app.extension_mode = ExtensionMode::Exclude;
    app.extension_text = ".JPG, png".to_string();
    app.start_scan(Some(5), Some(9));
    assert_eq!((app.config.min_size, app.config.max_size), (Some(5), Some(9)));
    assert!(matches!(
        &app.config.extensions,
        ExtensionFilter::Exclude(list) if *list == ["jpg", "png"]
    ));
}

#[test]
fn a_scan_can_be_paused_and_cancelled() {
    let mut app = app();
    app.toggle_scan_pause();
    assert!(!app.is_scan_paused(), "nothing to pause");
    app.start_scan(None, None);
    app.toggle_scan_pause();
    assert!(app.is_scan_paused());
    app.toggle_scan_pause();
    assert!(!app.is_scan_paused());
    app.cancel_scan();
    app.play_sounds = true;
    let sound = app.take_scan_event(ScanEvent::Done { elapsed_ms: 3 });
    assert_eq!(sound, None, "a cancelled scan ends in silence");
    assert!(!app.is_scanning());
}

#[test]
fn the_time_of_a_scan_leaves_out_its_pauses() {
    let mut app = app();
    app.play_sounds = true;
    app.start_scan(None, None);
    let sound = app.take_scan_event_at(ScanEvent::Done { elapsed_ms: 5000 }, 2_000_000_000);
    assert_eq!(sound, Some(Sound::ScanFinished));
    assert!(matches!(app.scan_state, ScanState::Done { elapsed_ms: 3000 }));
    // Late events of an ended scan change nothing.
    app.take_scan_event(ScanEvent::GroupFound(group(vec![entry("a", 1, 0)])));
    assert!(app.groups.is_empty());
}

#[test]
fn the_progress_of_a_scan_is_shown() {
    let mut app = app();
    assert_eq!(app.taskbar_progress(), TaskbarProgress::Hidden);
    app.start_scan(None, None);
    app.take_scan_event(ScanEvent::Progress { scanned: 12 });
    assert_eq!(app.taskbar_progress(), TaskbarProgress::Indeterminate);
    app.take_scan_event(ScanEvent::HashPhaseStarted { total_bytes: 100 });
    app.take_scan_event(ScanEvent::HashProgress { bytes_done: 40 });
    let part = Fraction { done: 40, total: 100 };
    assert_eq!(app.taskbar_progress(), TaskbarProgress::Normal(part));
    app.toggle_scan_pause();
    assert_eq!(app.taskbar_progress(), TaskbarProgress::Paused(part));
    app.take_scan_event(ScanEvent::Error("unreadable".to_string()));
    assert_eq!(app.status_message.as_deref(), Some("unreadable"));
}

#[test]
fn matched_files_are_shown_in_the_chosen_order() {
    let mut app = app();
    app.config.mode = ScanMode::MatchingFiles;
    app.start_scan(None, None);
    app.take_scan_event(ScanEvent::FilesMatched(vec![entry("b", 1, 0), entry("a", 7, 0)]));
    app.take_scan_event(ScanEvent::FilesMatched(vec![entry("c", 3, 0)]));
    assert_eq!(app.matched_order(), vec![0, 1, 2]);
    app.sort = Some((SortColumn::Size, SortDirection::Desc));
    assert_eq!(app.matched_order(), vec![1, 2, 0]);
    app.select_ctrl_a();
    assert_eq!(app.selection.len(), 3);
}

fn grouped_app() -> DupeApp {
    let mut app = app();
    app.start_scan(None, None);
    for files in [
        vec![entry("x/long/a", 5, 10), entry("y/a", 5, 20), entry("z/aa", 5, 30)],
        vec![entry("x/b", 7, 5), entry("y/long/b", 7, 1)],
    ] {
        app.take_scan_event(ScanEvent::GroupFound(group(files)));
    }
    app.take_scan_event(ScanEvent::Done { elapsed_ms: 1 });
    app
}

fn selected(app: &DupeApp) -> Vec<String> {
    let mut paths = app.selection.paths().clone();
    paths.sort();
    paths
}

#[test]
fn files_are_selected_by_a_criterion_in_each_group() {
    let expect = [
        (SelectCriterion::Oldest, ["x/long/a", "y/long/b"]),
        (SelectCriterion::Newest, ["x/b", "z/aa"]),
        (SelectCriterion::ShortestPath, ["x/b", "y/a"]),
        (SelectCriterion::LongestPath, ["x/long/a", "y/long/b"]),
    ];
    for (criterion, paths) in expect {
        let mut app = grouped_app();
        app.select_by_criterion(criterion, false);
        assert_eq!(selected(&app), paths, "{}", criterion.label());
        // Inverted, it selects the rest.
        app.selection.clear();
        app.select_by_criterion(criterion, true);
        assert_eq!(app.selection.len(), 3);
        assert!(paths.iter().all(|p| !app.selection.contains(p)));
    }
    assert_eq!(SelectCriterion::ALL.len(), 4);
}

#[test]
fn a_criterion_adds_to_the_selection() {
    let files = vec![
        TimedPath { path: "a".to_string(), modified: 2 },
        TimedPath { path: "b".to_string(), modified: 1 },
    ];
    let mut selection = PathSet::from_paths(&vec!["c".to_string()]);
    apply_criterion_selection(&files, SelectCriterion::Oldest, false, &mut selection);
    assert_eq!(*selection.paths(), ["b", "c"]);
    apply_criterion_selection(&Vec::new(), SelectCriterion::Newest, true, &mut selection);
    assert_eq!(selection.len(), 2);
}

#[test]
fn a_click_selects_and_deselects() {
    let mut app = grouped_app();
    app.toggle_selected("x/b".to_string());
    assert!(app.selection.contains("x/b"));
    app.toggle_selected("x/b".to_string());
    assert!(app.selection.is_empty());
    app.delete_selected();
    assert!(app.delete_confirm.is_none(), "nothing is selected");
    assert!(app.confirm_delete().is_none());
}

#[test]
fn the_table_shows_only_copies_on_request() {
    let mut app = grouped_app();
    app.only_show_duplicates = true;
    app.refresh_exact_rows_cache();
    assert_eq!(app.exact_rows_cache.rows.len(), 3);
    assert_eq!(app.summarize_shown().count, 3);
    app.select_ctrl_a();
    assert!(!app.selection.contains("x/b"), "originals aren't shown");
}

#[test]
fn a_skipped_file_stays_in_the_results() {
    let mut app = grouped_app();
    app.play_sounds = true;
    app.selection.insert("x/long/a".to_string());
    app.selection.insert("y/a".to_string());
    app.delete_selected();
    let id = app.confirm_delete().unwrap().id;
    assert!(app.selection.is_empty(), "what is being deleted is no longer selected");
    app.take_delete_event(id, DeleteEvent::FileDone { path: "y/a".to_string(), deleted: true });
    assert_eq!(
        app.taskbar_progress(),
        TaskbarProgress::Normal(Fraction { done: 1, total: 2 })
    );
    app.take_delete_event(
        id,
        DeleteEvent::FileDone { path: "x/long/a".to_string(), deleted: false },
    );
    assert_eq!(app.take_delete_event(id, DeleteEvent::Finished), Some(Sound::DeleteFinished));
    let names: Vec<&str> = app.groups[0].files.iter().map(|f| f.path.as_str()).collect();
    assert_eq!(names, ["x/long/a", "z/aa"]);
    assert_eq!(app.groups.len(), 2);
    assert_eq!(app.take_delete_event(id, DeleteEvent::Finished), None, "it is gone");
}

#[test]
fn similar_groups_are_pruned_and_selected_too() {
    let media = |path: &str, modified: i128| MediaEntry {
        path: path.to_string(),
        size: 5,
        created: 0,
        modified,
        width: 2,
        height: 2,
    };
    let mut app = app();
    app.config.mode = ScanMode::SimilarMedia;
    app.start_scan(None, None);
    let files = vec![media("a.jpg", 1), media("b.jpg", 2)];
    app.take_scan_event(ScanEvent::SimilarGroupFound(SimilarGroup { files }));
    app.take_scan_event(ScanEvent::Done { elapsed_ms: 1 });
    app.select_by_criterion(SelectCriterion::Newest, false);
    assert_eq!(selected(&app), ["b.jpg"]);
    app.delete_selected();
    let request = app.confirm_delete().unwrap();
    let mut files = disk(&[("b.jpg", b"x")]);
    delete(&mut app, request, &mut files);
    assert!(app.similar_groups.is_empty(), "a single file is no group");
}

#[test]
fn closing_asks_while_something_would_be_lost() {
    let mut idle = app();
    assert!(!idle.close_needs_confirm() && idle.request_close());
    let mut app = grouped_app();
    assert!(!app.request_close());
    assert_eq!(app.pending_confirm, Some(ConfirmAction::CloseWindow));
    let question = describe(&app, ConfirmAction::CloseWindow);
    assert_eq!(question.message, "The current scan results will be lost.");
    app.start_scan(None, None);
    assert_eq!(app.running_work(), ["a scan"]);
    let question = describe(&app, ConfirmAction::CloseWindow);
    assert!(question.message.starts_with("Still running: a scan."));
    assert!(app.apply_confirmed(ConfirmAction::CloseWindow));
    assert!(app.request_close(), "closing was confirmed");
}

#[test]
fn a_confirmed_cancellation_reaches_its_job() {
    let mut app = grouped_app();
    app.selection.insert("x/b".to_string());
    app.delete_selected();
    let id = app.confirm_delete().unwrap().id;
    assert!(!app.apply_confirmed(ConfirmAction::CancelDelete(id)));
    assert!(app.delete_jobs[0].is_cancelled());
    app.start_scan(None, None);
    assert!(!app.apply_confirmed(ConfirmAction::CancelScan));
    assert!(matches!(&app.scan_state, ScanState::Running(run) if run.control.cancelled));
    app.reverse_search.index_folders.push(r"C:\d".to_string());
    app.reverse_search.start_indexing();
    assert!(!app.apply_confirmed(ConfirmAction::CancelIndexing));
    app.reencode.folders.push(r"C:\d".to_string());
    app.reencode.start(false);
    assert!(!app.apply_confirmed(ConfirmAction::CancelReencode));
    assert!(app.reencode.job.as_ref().unwrap().is_cancelled());
    // Without such a job nothing happens.
    assert!(!app.apply_confirmed(ConfirmAction::CancelCopy));
    assert!(!app.apply_confirmed(ConfirmAction::CancelFlatten));
}

#[test]
fn picked_places_reach_their_tabs() {
    let mut app = app();
    let one = |path: &str| vec![path.to_string()];
    assert!(matches!(
        app.take_picked(PickPurpose::SearchFile, one(r"C:\f.txt")),
        PickFollowUp::Lookup(q) if q.path == r"C:\f.txt"
    ));
    assert!(matches!(
        app.take_picked(PickPurpose::FillSource, one(r"C:\src")),
        PickFollowUp::Measure(path) if path == r"C:\src"
    ));
    assert!(matches!(
        app.take_picked(PickPurpose::FillTarget, one(r"D:\dst")),
        PickFollowUp::Space(q) if q.target == r"D:\dst"
    ));
    assert!(matches!(
        app.take_picked(PickPurpose::FlattenRoot, one(r"C:\flat")),
        PickFollowUp::Plan(q) if q.root == r"C:\flat"
    ));
    app.take_picked(PickPurpose::ReencodeFolders, one(r"C:\r"));
    app.take_picked(PickPurpose::IndexFolders, vec![r"C:\i".to_string(), r"C:\i".to_string()]);
    assert_eq!(app.reencode.folders, one(r"C:\r"));
    assert_eq!(app.reverse_search.index_folders, one(r"C:\i"), "no folder twice");
    let nothing = app.take_picked(PickPurpose::FillSource, Vec::new());
    assert!(matches!(nothing, PickFollowUp::Nothing), "the dialog was closed");
}
