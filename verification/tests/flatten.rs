use dupe_rs::flatten::plan::{plan_flatten, PlannedMove};
use dupe_rs::paths::{are_same_path, parent_of};
use dupe_rs::flatten::{
    decide_move, move_result, relative, FlattenState, MoveEvent, MoveRequest, MoveStep,
};
use std::collections::BTreeMap;

/// A disk that is held in memory: the files by their paths.
type Disk = BTreeMap<String, Vec<u8>>;

fn disk(files: &[(&str, &[u8])]) -> Disk {
    files.iter().map(|(path, content)| (path.to_string(), content.to_vec())).collect()
}

/// The names of everything directly in `root`, and the files below that.
fn list(disk: &Disk, root: &str) -> (Vec<String>, Vec<String>) {
    let base = format!("{root}\\");
    let mut names: Vec<String> = Vec::new();
    let mut files = Vec::new();
    for path in disk.keys() {
        let Some(rel) = path.strip_prefix(base.as_str()) else { continue };
        let parts: Vec<&str> = rel.split('\\').collect();
        if !names.iter().any(|n| n == parts[0]) {
            names.push(parts[0].to_string());
        }
        if parts.len() > 1 {
            files.push(path.clone());
        }
    }
    (names, files)
}

fn plan(disk: &Disk, root: &str) -> Option<Vec<PlannedMove>> {
    let (names, files) = list(disk, root);
    plan_flatten(root, &names, &files)
}

fn moved_names(moves: &[PlannedMove]) -> Vec<String> {
    moves.iter().map(|m| m.to.rsplit('\\').next().unwrap().to_string()).collect()
}

/// Answers the plan that `state` is waiting for.
fn settle(state: &mut FlattenState, disk: &Disk) {
    if let (Some(ticket), Some(root)) = (state.planning, state.root.clone()) {
        assert!(state.take_plan(ticket, plan(disk, &root)));
    }
}

/// Makes the moves of a run, and hands their events to `state`.
fn run(state: &mut FlattenState, request: MoveRequest, disk: &mut Disk) {
    for (from, to) in request.moves {
        state.take_event(MoveEvent::Started { from: from.clone() });
        let event = match decide_move(&to, disk.contains_key(&to), request.create_parents) {
            MoveStep::Refuse(reason) => MoveEvent::Failed(reason),
            MoveStep::Rename { make_folder } => {
                assert_eq!(make_folder.is_some(), request.create_parents);
                let outcome = match disk.remove(&from) {
                    Some(content) => {
                        disk.insert(to.clone(), content);
                        Ok(())
                    }
                    None => Err("not found".to_string()),
                };
                move_result(from, to, outcome)
            }
        };
        state.take_event(event);
    }
    state.take_event(MoveEvent::Finished { removed_dirs: 0 });
    settle(state, disk);
}

#[test]
fn flattens_removes_empty_folders_and_undo_restores_everything() {
    let root = r"C:\d";
    let before = disk(&[
        (r"C:\d\a\one.txt", b"1"),
        (r"C:\d\a\b\one.txt", b"2"),
        (r"C:\d\top.txt", b"t"),
    ]);
    let mut files = before.clone();

    let mut state = FlattenState::default();
    state.set_root(root.to_string());
    settle(&mut state, &files);
    assert_eq!(state.plan.len(), 2);
    assert_eq!(state.renamed_count(), 1);

    let request = state.start().unwrap();
    assert_eq!(request.remove_empty_under.as_deref(), Some(root));
    run(&mut state, request, &mut files);
    let mut contents = vec![files[r"C:\d\one.txt"].clone(), files[r"C:\d\one (2).txt"].clone()];
    contents.sort();
    assert_eq!(contents, vec![b"1".to_vec(), b"2".to_vec()]);
    assert!(!files.keys().any(|p| p.starts_with(r"C:\d\a\")), "the folders are emptied");
    assert!(state.plan.is_empty(), "nothing left to flatten");

    let request = state.undo().unwrap();
    assert!(request.create_parents);
    run(&mut state, request, &mut files);
    assert_eq!(files, before);
    assert!(state.undo().is_none(), "an undone run is not undone again");
}

#[test]
fn never_overwrites_a_file_that_appeared_after_planning() {
    let mut files = disk(&[(r"C:\d\sub\x.txt", b"mine")]);

    let mut state = FlattenState::default();
    state.set_root(r"C:\d".to_string());
    settle(&mut state, &files);
    files.insert(r"C:\d\x.txt".to_string(), b"appeared meanwhile".to_vec());
    let request = state.start().unwrap();
    run(&mut state, request, &mut files);

    assert_eq!(files[r"C:\d\x.txt"], b"appeared meanwhile");
    assert_eq!(files[r"C:\d\sub\x.txt"], b"mine");
    assert_eq!(state.errors.len(), 1);
    assert_eq!(state.errors[0], r"C:\d\x.txt already exists");
}

#[test]
fn renames_clashes_windows_style_and_avoids_existing_names() {
    let files = disk(&[
        (r"C:\d\photo.jpg", b"already here"),
        (r"C:\d\a\photo.jpg", b"1"),
        (r"C:\d\b\PHOTO.jpg", b"2"),
        (r"C:\d\b\deeper\notes", b"3"),
        // A file named like an existing folder must not take its name.
        (r"C:\d\b\deeper\a", b"4"),
    ]);

    let moves = plan(&files, r"C:\d").unwrap();
    let mut got = moved_names(&moves);
    got.sort();
    assert_eq!(got, ["PHOTO (3).jpg", "a (2)", "notes", "photo (2).jpg"]);
    assert!(moves.iter().all(|m| m.to.rsplit_once('\\').unwrap().0 == r"C:\d"));
    assert_eq!(moves.iter().filter(|m| m.renamed).count(), 3);
}

#[test]
fn split_archive_sets_are_renamed_together() {
    let files = disk(&[
        (r"C:\d\movie.part2.rar", b"existing part"),
        (r"C:\d\dl\movie.part1.rar", b"p1"),
        (r"C:\d\dl\movie.part2.rar", b"p2"),
        (r"C:\d\dl\movie.part3.rar", b"p3"),
    ]);

    let moves = plan(&files, r"C:\d").unwrap();
    assert_eq!(
        moved_names(&moves),
        ["movie (2).part1.rar", "movie (2).part2.rar", "movie (2).part3.rar"],
        "one clash renames the whole set with the same number"
    );
}

#[test]
fn files_already_in_the_root_are_left_alone() {
    let files = disk(&[(r"C:\d\top.txt", b"x")]);
    assert!(plan(&files, r"C:\d").unwrap().is_empty());
}

#[test]
fn a_run_needs_a_plan_and_no_other_run() {
    let files = disk(&[(r"C:\d\sub\x.txt", b"x")]);
    let mut state = FlattenState::default();
    assert!(state.start().is_none(), "no plan yet");
    assert!(state.undo().is_none(), "nothing to undo");
    let asked = state.set_root(r"C:\d".to_string()).unwrap();
    assert_eq!(asked.root, r"C:\d");
    assert!(state.is_planning() && state.start().is_none());
    // An answer to an earlier question doesn't count.
    assert!(!state.take_plan(asked.ticket + 1, Some(Vec::new())));
    settle(&mut state, &files);
    assert!(state.can_start() && !state.can_undo());
    assert!(state.start().is_some());
    assert!(!state.can_start());
    assert!(state.is_running() && state.start().is_none());
    assert!(state.set_root(r"C:\e".to_string()).is_none());
    assert_eq!(state.root.as_deref(), Some(r"C:\d"));
}

#[test]
fn a_plan_for_another_folder_is_dropped() {
    let mut state = FlattenState::default();
    let first = state.set_root(r"C:\d".to_string()).unwrap();
    let second = state.set_root(r"C:\e".to_string()).unwrap();
    assert_ne!(first.ticket, second.ticket);
    let stale = plan(&disk(&[(r"C:\d\s\x.txt", b"x")]), r"C:\d");
    assert!(!state.take_plan(first.ticket, stale));
    assert!(state.is_planning() && state.plan.is_empty());
    assert!(state.take_plan(second.ticket, Some(Vec::new())));
}

#[test]
fn a_cancelled_run_can_still_be_undone() {
    let mut files = disk(&[(r"C:\d\s\x.txt", b"x"), (r"C:\d\s\y.txt", b"y")]);
    let before = files.clone();
    let mut state = FlattenState::default();
    state.set_root(r"C:\d".to_string());
    settle(&mut state, &files);
    let mut request = state.start().unwrap();
    state.job.as_mut().unwrap().cancel();
    assert!(state.job.as_ref().unwrap().is_cancelled());
    request.moves.truncate(1);
    run(&mut state, request, &mut files);
    assert_ne!(files, before);
    assert_eq!(state.last_run.len(), 1);
    let request = state.undo().unwrap();
    run(&mut state, request, &mut files);
    assert_eq!(files, before);
}

#[test]
fn a_file_that_vanished_is_reported() {
    let mut files = disk(&[(r"C:\d\s\x.txt", b"x")]);
    let mut state = FlattenState::default();
    state.set_root(r"C:\d".to_string());
    settle(&mut state, &files);
    let request = state.start().unwrap();
    files.clear();
    run(&mut state, request, &mut files);
    assert_eq!(state.errors, [r"Couldn't move C:\d\s\x.txt: not found"]);
    assert!(state.last_run.is_empty());
}

#[test]
fn paths_are_shown_below_the_root() {
    assert_eq!(relative(r"C:\d\a\x.txt", r"C:\d"), r"a\x.txt");
    assert_eq!(relative(r"E:\x.txt", r"C:\d"), r"E:\x.txt");
}

#[test]
fn every_file_is_planned_once_and_lands_in_the_root() {
    let root = r"\\?\D:\root";
    let names = vec!["a".to_string(), "b.txt".to_string()];
    let files: Vec<String> = [
        r"\\?\D:\root\a\b.txt", r"\\?\D:\root\a\c\B.TXT", r"\\?\D:\root\a\set.part1.rar",
        r"\\?\D:\root\a\set.part2.rar", r"\\?\D:\root\a\b", r"\\?\D:\root\a\c\b.txt",
    ]
    .map(String::from)
    .to_vec();
    let moves = plan_flatten(root, &names, &files).unwrap();
    let mut from: Vec<&String> = moves.iter().map(|m| &m.from).collect();
    from.sort();
    let mut all: Vec<&String> = files.iter().collect();
    all.sort();
    assert_eq!(from, all);
    for m in &moves {
        assert!(are_same_path(&parent_of(&m.to).unwrap(), root), "{}", m.to);
    }
    assert_eq!(moves.iter().filter(|m| m.renamed).count(), 3);
}
