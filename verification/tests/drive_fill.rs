use dupe_rs::app::SortDirection;
use dupe_rs::control::JobControl;
use dupe_rs::drive_fill::copy::{
    after_file, plan_entry, target_of, uncreated_folder, unreadable_entry, AfterFile, Copied,
    CopyEvent, CopyProgress, EntryKind, EntryStep, FileCopy, COPY_BUF_SIZE, PROGRESS_STEP,
};
use dupe_rs::drive_fill::measure::{measure_folder, Found, Listed, MeasureEvent, Measuring};
use dupe_rs::drive_fill::plan::choose_best_fit;
use dupe_rs::drive_fill::{DriveFillState, FolderSortColumn, FolderStatus};
use dupe_rs::index_db::{hex_encode, IndexDb, IndexedFile, VolumeUsage};
use dupe_rs::paths::are_same_path;
use dupe_rs::reverse_search::ReverseSearchState;
use dupe_rs::scanner::hash::full_hash;
use dupe_rs::volume::{DiskSpace, VolumeInfo};
use std::collections::BTreeMap;

fn total(weights: &[u64], set: &[usize]) -> u64 {
    set.iter().map(|&i| weights[i]).sum()
}

#[test]
fn takes_everything_when_it_all_fits() {
    assert_eq!(choose_best_fit(&[1, 2, 3], 10), vec![0, 1, 2]);
}

#[test]
fn skips_items_bigger_than_the_whole_capacity() {
    assert_eq!(choose_best_fit(&[50, 3, 4], 10), vec![1, 2]);
}

#[test]
fn beats_largest_first_greedy() {
    // Greedy takes 6 and then nothing else fits (6+5 > 10): total 6.
    // The optimum is 5 + 5 = 10.
    let weights = [6, 5, 5];
    let chosen = choose_best_fit(&weights, 10);
    assert_eq!(total(&weights, &chosen), 10);
}

#[test]
fn never_exceeds_capacity_with_large_byte_sizes() {
    // Drive-sized numbers, so the DP has to bucket.
    let gb = 1_000_000_000u64;
    let weights: Vec<u64> = (1..=60).map(|i| i * 7 * gb + i * 12_345).collect();
    let capacity = 1_000 * gb;
    let chosen = choose_best_fit(&weights, capacity);
    let used = total(&weights, &chosen);
    assert!(used <= capacity);
    // Within 1% of full.
    assert!(used as f64 >= capacity as f64 * 0.99, "used {used}");
}

#[test]
fn finds_the_exact_optimum_on_small_inputs() {
    // Brute-force cross-check over every subset.
    let weights = [23, 31, 29, 44, 53, 38, 63, 85, 89, 82];
    let capacity = 165;
    let best = (0u32..1 << weights.len())
        .map(|mask| {
            (0..weights.len())
                .filter(|i| mask >> i & 1 == 1)
                .map(|i| weights[i])
                .sum::<u64>()
        })
        .filter(|&t| t <= capacity)
        .max()
        .unwrap();
    let chosen = choose_best_fit(&weights, capacity);
    assert_eq!(total(&weights, &chosen), best);
}

#[test]
fn chooses_nothing_where_nothing_fits() {
    assert!(choose_best_fit(&[], 10).is_empty());
    assert!(choose_best_fit(&[5, 6], 4).is_empty());
    assert_eq!(choose_best_fit(&[5, 0], 0), vec![1]);
}

#[test]
fn totals_each_top_level_folder_and_ignores_loose_files() {
    let listing = ["a", "b", "loose.bin"]
        .iter()
        .map(|name| Listed {
            name: name.to_string(),
            path: format!(r"C:\src\{name}"),
            is_dir: *name != "loose.bin",
        })
        .collect();
    let mut measuring = Measuring::begin(r"C:\src", Ok(listing)).unwrap();
    while let Some((event, name, path)) = measuring.next() {
        assert!(matches!(event, MeasureEvent::Progress { total: 2, .. }));
        let found = match name.as_str() {
            "a" => vec![Found::File(100), Found::Folder, Found::File(50), Found::Other],
            "b" => vec![Found::File(10)],
            _ => panic!("{name} is no folder"),
        };
        measuring.take(measure_folder(name, path, None, Some(5), &found));
    }
    let MeasureEvent::Done(mut folders) = measuring.finish() else { panic!("not done") };
    folders.sort_by(|x, y| x.name.cmp(&y.name));

    assert_eq!(folders.len(), 2);
    assert_eq!((folders[0].name.as_str(), folders[0].size), ("a", 150));
    assert_eq!(folders[0].file_count, 2);
    assert_eq!(folders[0].dir_count, 1);
    assert_eq!((folders[1].name.as_str(), folders[1].size), ("b", 10));
    // Two 4 KiB clusters plus three file records.
    assert_eq!(folders[0].footprint(4096), 2 * 4096 + 3 * 1024);
    assert_eq!((folders[0].created, folders[0].modified), (0, 5));
    // A footprint covers the files themselves.
    assert!(folders[0].footprint(1) >= folders[0].size);
}

#[test]
fn an_unreadable_source_is_reported() {
    let events = Measuring::begin(r"C:\src", Err("denied".to_string())).unwrap_err();
    assert_eq!(
        events,
        vec![
            MeasureEvent::Error(r"Couldn't read C:\src: denied".to_string()),
            MeasureEvent::Done(Vec::new()),
        ]
    );
}

/// A disk that is held in memory: the files by their paths, and the folders.
#[derive(Default)]
struct Disk {
    files: BTreeMap<String, Vec<u8>>,
    folders: Vec<String>,
}

/// Copies one folder of `disk`, as long as `control` lets it.
fn copy_folder(
    disk: &mut Disk,
    source: &str,
    dest: &str,
    volume: Option<&VolumeInfo>,
    control: &JobControl,
) -> Vec<CopyEvent> {
    let base = format!("{source}\\");
    let mut entries: Vec<(String, EntryKind)> = vec![(source.to_string(), EntryKind::Folder)];
    for folder in disk.folders.iter().filter(|f| f.starts_with(base.as_str())) {
        entries.push((folder.clone(), EntryKind::Folder));
    }
    for file in disk.files.keys().filter(|f| f.starts_with(base.as_str())) {
        entries.push((file.clone(), EntryKind::File));
    }
    let mut events = Vec::new();
    let mut progress = CopyProgress::new();
    for (entry, kind) in entries {
        if control.is_cancelled() {
            events.push(CopyEvent::Done { aborted: None, usage: None });
            return events;
        }
        match plan_entry(source, dest, &entry, kind) {
            EntryStep::MakeFolder(target) => disk.folders.push(target),
            EntryStep::CopyFile(target, event) => {
                events.push(event);
                let content = disk.files[&entry].clone();
                let mut copy = FileCopy::new();
                for piece in content.chunks(COPY_BUF_SIZE) {
                    copy.feed(piece);
                    progress.count(piece.len() as u64);
                }
                disk.files.insert(target.clone(), content);
                let copied = copy.finish(77);
                assert!(copied.stays());
                match after_file(&entry, &target, copied, progress.bytes_done, volume) {
                    AfterFile::Continue(more) => events.extend(more),
                    AfterFile::Stop(aborted) => {
                        events.push(CopyEvent::Done { aborted, usage: None });
                        return events;
                    }
                }
            }
            EntryStep::Skip => {}
        }
    }
    events.push(CopyEvent::Done { aborted: None, usage: None });
    events
}

#[test]
fn copies_a_tree_and_reports_hashes_matching_a_full_read() {
    let mut disk = Disk::default();
    disk.folders.push(r"C:\src\album\disc1".to_string());
    disk.folders.push(r"C:\src\album\empty".to_string());
    disk.files.insert(r"C:\src\album\cover.jpg".to_string(), b"cover bytes".to_vec());
    disk.files
        .insert(r"C:\src\album\disc1\01.flac".to_string(), vec![7u8; 3 * 1024 * 1024]);

    let volume = VolumeInfo { drive_letter: "D:".to_string(), label: "data".to_string() };
    let events = copy_folder(
        &mut disk,
        r"C:\src\album",
        r"D:\dst\album",
        Some(&volume),
        &JobControl::default(),
    );

    assert!(matches!(events.last(), Some(CopyEvent::Done { aborted: None, .. })));
    assert!(disk.folders.iter().any(|f| f == r"D:\dst\album\empty"));
    assert_eq!(disk.files[r"D:\dst\album\disc1\01.flac"], vec![7u8; 3 * 1024 * 1024]);

    let reported: Vec<(String, IndexedFile)> = events
        .into_iter()
        .filter_map(|e| match e {
            CopyEvent::FileCopied { hash_hex, file } => Some((hash_hex, file)),
            _ => None,
        })
        .collect();
    assert_eq!(reported.len(), 2);
    for (hash_hex, file) in reported {
        let on_disk = &disk.files[&file.absolute_path()];
        assert_eq!(hash_hex, hex_encode(&full_hash(on_disk)));
        assert_eq!(file.size, on_disk.len() as u64);
        assert_eq!(file.modified, 77);
        assert_eq!(file.volume_label, "data");
    }
}

#[test]
fn a_cancelled_copy_leaves_no_partial_file() {
    let mut disk = Disk::default();
    disk.files.insert(r"C:\src\f\a.bin".to_string(), b"data".to_vec());

    copy_folder(&mut disk, r"C:\src\f", r"D:\dst\f", None, &JobControl::cancelled());
    assert!(!disk.files.contains_key(r"D:\dst\f\a.bin"));

    // Cancelled part-way, what was written doesn't stay, and the job ends.
    assert!(!Copied::Cancelled.stays());
    assert_eq!(after_file("s", "t", Copied::Cancelled, 3, None), AfterFile::Stop(None));
}

#[test]
fn a_copy_stops_at_a_full_target_and_survives_other_errors() {
    assert!(!Copied::Full.stays());
    let AfterFile::Stop(Some(reason)) = after_file("s", "t", Copied::Full, 3, None) else {
        panic!("a full target ends the job");
    };
    assert_eq!(reason, "The target ran out of space while copying s.");
    let failed = after_file("s", "t", Copied::Failed("broken".to_string()), 3, None);
    let AfterFile::Continue(events) = failed else { panic!("the job goes on") };
    assert!(matches!(&events[..], [CopyEvent::Error(m)] if m.contains("broken")));
    assert_eq!(unreadable_entry("x"), CopyEvent::Error("Skipping entry: x".to_string()));
    assert_eq!(
        uncreated_folder("t", "x"),
        CopyEvent::Error("Couldn't create t: x".to_string())
    );
    assert_eq!(plan_entry("s", "d", "s\\link", EntryKind::Other), EntryStep::Skip);
    assert_eq!(target_of(r"C:\s", r"D:\d\s", r"C:\s\a\b"), r"D:\d\s\a\b");
    assert_eq!(target_of(r"C:\s", r"D:\d\s\", r"c:/s/a//c"), r"D:\d\s\a//c");
    assert!(are_same_path(&target_of(r"C:\s", r"D:\d\s", r"C:\s"), r"D:\d\s"));
    assert!(!are_same_path(
        &target_of(r"C:\s", r"D:\d", r"C:\s\a"),
        &target_of(r"C:\s", r"D:\d", r"C:\s\b")
    ));
}

#[test]
fn copy_progress_is_reported_in_steps() {
    let mut progress = CopyProgress::new();
    assert!(!progress.count(PROGRESS_STEP - 1));
    assert!(progress.count(1));
    assert!(!progress.count(1));
    assert_eq!(progress.bytes_done, PROGRESS_STEP + 1);
    assert_eq!(progress.last_reported, PROGRESS_STEP);
}

fn status_of(state: &DriveFillState, name: &str) -> FolderStatus {
    let i = state.folders.iter().position(|f| f.name == name).unwrap();
    state.plan.statuses[i]
}

fn names(state: &DriveFillState) -> Vec<String> {
    state.sorted_indices().into_iter().map(|i| state.folders[i].name.clone()).collect()
}

/// A state that has measured a source with the folders of the scenario below.
fn measured() -> DriveFillState {
    let mut state = DriveFillState::default();
    assert!(state.set_source(r"C:\src".to_string()));
    let folders = [("mid", 50u64), ("big", 60), ("small", 45)]
        .iter()
        .map(|(name, kb)| {
            let mut found = vec![Found::File(kb * 1000)];
            if *name == "small" {
                found.push(Found::Folder);
                found.push(Found::File(5));
            }
            measure_folder(name.to_string(), format!(r"C:\src\{name}"), None, None, &found)
        })
        .collect();
    assert!(state.take_measure_event(MeasureEvent::Progress { done: 1, total: 3 }));
    assert!(state.take_measure_event(MeasureEvent::Done(folders)));
    assert!(!state.needs_polling());
    state
}

#[test]
fn fills_the_target_with_the_best_fitting_folders_and_indexes_them() {
    // 60 KB + 50 KB + 45 KB folders against ~100 KB of room: largest-first
    // would copy only the 60 KB folder; the best fit is 50 KB + 45 KB.
    let mut disk = Disk::default();
    for (name, kb) in [("big", 60), ("mid", 50), ("small", 45)] {
        disk.files
            .insert(format!(r"C:\src\{name}\data.bin"), vec![name.len() as u8; kb * 1000]);
    }
    disk.files.insert(r"C:\src\small\nested\note.txt".to_string(), b"hello".to_vec());

    let mut reverse_search = ReverseSearchState::new(IndexDb::default());
    let mut state = measured();
    assert_eq!(state.folders.len(), 3);

    // Largest first by default, and the overview re-sorts by any column.
    assert_eq!(names(&state), ["big", "mid", "small"]);
    state.sort = Some((FolderSortColumn::Name, SortDirection::Desc));
    assert_eq!(names(&state), ["small", "mid", "big"]);
    state.sort = Some((FolderSortColumn::Files, SortDirection::Desc));
    assert_eq!(names(&state)[0], "small");
    state.sort = None;

    let asked = state.set_target(r"D:\dst".to_string()).unwrap();
    assert_eq!(asked.target, r"D:\dst");
    let space = DiskSpace { free: 105_000, total: 1_000_000, cluster: 1 };
    assert!(state.take_space(asked.ticket, Some(space), Vec::new()));
    state.reserve_mb = 0;
    state.replan();

    assert_eq!(status_of(&state, "big"), FolderStatus::DoesNotFit);
    assert_eq!(status_of(&state, "mid"), FolderStatus::Planned);
    assert_eq!(status_of(&state, "small"), FolderStatus::Planned);
    assert_eq!(state.plan.planned_count(), 2);
    assert!(state.plan.planned_footprint <= state.plan.capacity);

    assert!(state.can_copy());
    let jobs = state.start_copy().unwrap();
    assert!(state.is_copying() && !state.can_copy());
    let volume = VolumeInfo { drive_letter: "D:".to_string(), label: "data".to_string() };
    let usage = VolumeUsage { total: 1_000_000, free: 9_995, recorded_at: 3 };
    let mut finished = None;
    for (source, dest) in jobs {
        let events =
            copy_folder(&mut disk, &source, &dest, Some(&volume), &JobControl::default());
        for event in events {
            if !matches!(event, CopyEvent::Done { .. }) {
                assert!(state.take_copy_event(event).is_none());
            }
        }
    }
    let done = CopyEvent::Done {
        aborted: None,
        usage: Some(("D:".to_string(), "data".to_string(), usage)),
    };
    if let Some(f) = state.take_copy_event(done) {
        reverse_search.add_to_index(f.entries, f.usage);
        finished = state.finish_copy(f.cancelled, f.files_copied, &f.errors, f.aborted, Ok(()));
    }
    let existing = vec!["mid".to_string(), "small".to_string()];
    assert!(state.take_space(finished.unwrap().ticket, Some(space), existing));
    assert!(!state.is_busy());

    assert!(!disk.files.keys().any(|p| p.starts_with(r"D:\dst\big")));
    assert_eq!(disk.files[r"D:\dst\small\nested\note.txt"], b"hello");
    assert!(disk.files.contains_key(r"D:\dst\mid\data.bin"));
    assert_eq!(reverse_search.db.total_files(), 3);
    assert_eq!(reverse_search.db.usage("D:", "data"), Some(usage));

    // Once copied, those folders show up as already present in the target.
    assert_eq!(status_of(&state, "mid"), FolderStatus::ExistsInTarget);

    // Reverse search on the source file finds the copy on the target.
    let asked = reverse_search.pick_file(r"C:\src\mid\data.bin".to_string()).unwrap();
    let hash = full_hash(&disk.files[&asked.path]);
    assert!(reverse_search.take_lookup(asked.ticket, Ok(hash), Some("system".to_string())));
    assert_eq!(reverse_search.results.len(), 1);
    assert_eq!(reverse_search.results[0].absolute_path(), r"D:\dst\mid\data.bin");
}

#[test]
fn an_excluded_folder_is_not_copied() {
    let mut state = measured();
    let asked = state.set_target(r"D:\dst".to_string()).unwrap();
    let space = DiskSpace { free: 1_000_000_000, total: 2_000_000_000, cluster: 4096 };
    assert!(state.take_space(asked.ticket, Some(space), vec!["small".to_string()]));
    assert_eq!(state.plan.planned_count(), 2);
    let big = state.folders.iter().position(|f| f.name == "big").unwrap();
    state.set_excluded(big, true);
    assert_eq!(status_of(&state, "big"), FolderStatus::Excluded);
    assert_eq!(status_of(&state, "small"), FolderStatus::ExistsInTarget);
    assert_eq!(
        state.start_copy().unwrap(),
        vec![(r"C:\src\mid".to_string(), r"D:\dst\mid".to_string())]
    );
    assert!(!state.set_source(r"C:\other".to_string()), "not while copying");
    state.copy.as_mut().unwrap().cancel();
    let finished = state.take_copy_event(CopyEvent::Done { aborted: None, usage: None }).unwrap();
    assert!(finished.cancelled);
    state.set_excluded(big, false);
    assert_eq!(status_of(&state, "big"), FolderStatus::Planned);
}

#[test]
fn an_outdated_answer_about_the_target_is_ignored() {
    let mut state = measured();
    let first = state.set_target(r"D:\dst".to_string()).unwrap();
    let second = state.set_target(r"E:\dst".to_string()).unwrap();
    assert!(!state.take_space(first.ticket, None, Vec::new()));
    assert!(state.is_reading_target());
    assert!(state.take_space(second.ticket, None, Vec::new()));
    assert!(!state.is_reading_target());
}

#[test]
fn folder_statuses_are_spelled_out() {
    assert_eq!(FolderStatus::Planned.label(), "Will copy");
    assert_eq!(FolderStatus::DoesNotFit.label(), "Doesn't fit");
    assert_eq!(FolderStatus::Excluded.label(), "Excluded");
    assert_eq!(FolderStatus::ExistsInTarget.label(), "Already in target");
}
