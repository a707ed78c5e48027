//! Filtering the files that a walk finds.

use crate::archive;
use crate::config::{self, ExtensionFilter, ScanConfig, ScanMode};
use crate::model::{FileEntry, ScanEvent, Timestamp};
use crate::paths;
use vstd::prelude::*;

verus! {

/// After how many kept files progress is reported.
pub const PROGRESS_INTERVAL: usize = 200;

/// A file as the file system describes it.
#[derive(Debug, PartialEq)]
pub struct FoundFile {
    pub path: String,
    pub size: u64,
    /// Nothing if the platform can't report it.
    pub modified: Option<Timestamp>,
    /// Nothing if the file system doesn't track it.
    pub created: Option<Timestamp>,
}

/// One step of a walk.
#[derive(Debug, PartialEq)]
pub enum Walked {
    /// The entry itself could not be read.
    Failed(String),
    /// The entry's metadata could not be read.
    Unreadable { path: String, error: String },
    /// A file.
    File(FoundFile),
    /// Anything else.
    Other,
}

/// How deep a walk of a root goes: only its own files, or everything.
pub fn max_depth(config: &ScanConfig) -> (r: Option<usize>)
    ensures
        r == (if config.exclude_subfolders {
            Some(1usize)
        } else {
            None
        }),
{
    if config.exclude_subfolders {
        Some(1)
    } else {
        None
    }
}

/// Whether the scan takes a file of this path and size. Empty files are never
/// taken.
pub open spec fn takes_file(config: ScanConfig, path: Seq<char>, size: u64) -> bool {
    &&& size > 0
    &&& config.min_size is Some ==> config.min_size->0 <= size
    &&& config.max_size is Some ==> size <= config.max_size->0
    &&& config.extensions.takes(paths::lower_extension(path))
    &&& config.skip_archives ==> archive::archive_split(paths::name_or_empty(path)) is None
    &&& config.mode == ScanMode::MatchingFiles ==> config::passes_name_filter(
        config.name_filter@,
        paths::name_or_empty(path),
    )
}

/// The file that the scan keeps of what it found. A file without a
/// modification time can't take part in "oldest wins" and is dropped; one
/// without a creation time shows its modification time instead.
pub open spec fn kept_file(config: ScanConfig, f: FoundFile) -> Option<FileEntry> {
    if takes_file(config, f.path@, f.size) && f.modified is Some {
        Some(
            FileEntry {
                path: f.path,
                size: f.size,
                created: if f.created is Some {
                    f.created->0
                } else {
                    f.modified->0
                },
                modified: f.modified->0,
            },
        )
    } else {
        None
    }
}

/// Decides [`takes_file`].
pub fn passes_filters(config: &ScanConfig, path: &str, size: u64) -> (r: bool)
    ensures
        r == takes_file(*config, path@, size),
        r ==> size > 0 && (config.min_size matches Some(min) ==> min <= size) && (
        config.max_size matches Some(max) ==> size <= max),
{
    if size == 0 {
        return false;
    }
    if let Some(min) = config.min_size {
        if size < min {
            return false;
        }
    }
    if let Some(max) = config.max_size {
        if size > max {
            return false;
        }
    }
    let taken: bool = match paths::lower_extension_of(path) {
        Some(e) => config.extensions.matches(Some(e.as_str())),
        None => config.extensions.matches(None),
    };
    if !taken {
        return false;
    }
    let name = paths::file_name_or_empty(path);
    if config.skip_archives && archive::is_archive_part(name.as_str()) {
        return false;
    }
    if config.mode == ScanMode::MatchingFiles && !config::name_matches(
        config.name_filter.as_str(),
        name.as_str(),
    ) {
        return false;
    }
    true
}

/// What one step of a walk comes to.
#[derive(Debug, PartialEq)]
pub struct Outcome {
    /// The file to keep.
    pub kept: Option<FileEntry>,
    /// What to report.
    pub event: Option<ScanEvent>,
    /// How many files have been kept so far.
    pub scanned: usize,
}

/// Whether the event is the error with this message.
pub open spec fn is_error(event: Option<ScanEvent>, message: Seq<char>) -> bool {
    event matches Some(ScanEvent::Error(m)) && m@ == message
}

/// Applies the size/extension/name filters to one step of a walk and, if a
/// file survives, keeps it. Every `PROGRESS_INTERVAL` kept files progress is
/// reported; unreadable entries are reported and skipped rather than aborting
/// the whole scan.
pub fn process_entry(step: Walked, config: &ScanConfig, scanned: usize) -> (r: Outcome)
    requires
        scanned < usize::MAX,
    ensures
        match step {
            Walked::Failed(e) => r.kept is None && r.scanned == scanned && is_error(
                r.event,
                "Skipping entry: "@ + e@,
            ),
            Walked::Unreadable { path, error } => r.kept is None && r.scanned == scanned
                && is_error(r.event, "Skipping "@ + path@ + ": "@ + error@),
            Walked::Other => r.kept is None && r.scanned == scanned && r.event is None,
            Walked::File(f) => {
                &&& r.kept == kept_file(*config, f)
                &&& r.scanned == scanned + (if kept_file(*config, f) is Some {
                    1int
                } else {
                    0
                })
                &&& match r.event {
                    None => kept_file(*config, f) is None || (scanned + 1) % 200 != 0,
                    Some(e) => kept_file(*config, f) is Some && (scanned + 1) % 200 == 0
                        && e == (ScanEvent::Progress { scanned: (scanned + 1) as usize }),
                }
            },
        },
{
    match step {
        Walked::Failed(e) => {
            let message = "Skipping entry: ".to_owned().concat(e.as_str());
            Outcome { kept: None, event: Some(ScanEvent::Error(message)), scanned }
        },
        Walked::Unreadable { path, error } => {
            let message = "Skipping ".to_owned().concat(path.as_str()).concat(": ").concat(
                error.as_str(),
            );
            Outcome { kept: None, event: Some(ScanEvent::Error(message)), scanned }
        },
        Walked::Other => Outcome { kept: None, event: None, scanned },
        Walked::File(f) => {
            if !passes_filters(config, f.path.as_str(), f.size) {
                return Outcome { kept: None, event: None, scanned };
            }
            let modified: Timestamp = match f.modified {
                Some(m) => m,
                None => return Outcome { kept: None, event: None, scanned },
            };
            let created: Timestamp = match f.created {
                Some(c) => c,
                None => modified,
            };
            let n: usize = scanned + 1;
            let event: Option<ScanEvent> = if n % PROGRESS_INTERVAL == 0 {
                Some(ScanEvent::Progress { scanned: n })
            } else {
                None
            };
            let entry = FileEntry { path: f.path, size: f.size, created, modified };
            Outcome { kept: Some(entry), event, scanned: n }
        },
    }
}

/// The files that the steps of a walk leave.
pub open spec fn kept_files(config: ScanConfig, steps: Seq<Walked>) -> Seq<FileEntry>
    decreases steps.len(),
{
    if steps.len() == 0 {
        seq![]
    } else {
        let before = kept_files(config, steps.drop_last());
        match steps.last() {
            Walked::File(f) => match kept_file(config, f) {
                Some(e) => before.push(e),
                None => before,
            },
            _ => before,
        }
    }
}

/// What the walk reports: an unreadable entry, or how many files are kept.
pub enum Report {
    Skipped(Seq<char>),
    Kept(int),
}

/// What an event reports.
pub open spec fn report_of(event: ScanEvent) -> Option<Report> {
    match event {
        ScanEvent::Error(m) => Some(Report::Skipped(m@)),
        ScanEvent::Progress { scanned } => Some(Report::Kept(scanned as int)),
        _ => None,
    }
}

/// What the steps of a walk report, in order.
pub open spec fn walk_reports(config: ScanConfig, steps: Seq<Walked>) -> Seq<Option<Report>>
    decreases steps.len(),
{
    if steps.len() == 0 {
        seq![]
    } else {
        let before = walk_reports(config, steps.drop_last());
        let kept = kept_files(config, steps).len() as int;
        match steps.last() {
            Walked::Failed(e) => before.push(Some(Report::Skipped("Skipping entry: "@ + e@))),
            Walked::Unreadable { path, error } => before.push(
                Some(Report::Skipped("Skipping "@ + path@ + ": "@ + error@)),
            ),
            Walked::File(f) => if kept_file(config, f) is Some && kept % 200 == 0 {
                before.push(Some(Report::Kept(kept)))
            } else {
                before
            },
            Walked::Other => before,
        }
    }
}

/// What the events report.
pub open spec fn reports(events: Seq<ScanEvent>) -> Seq<Option<Report>> {
    events.map_values(|e: ScanEvent| report_of(e))
}

/// Applies [`process_entry`] to every step of a walk and returns the surviving
/// files, with what there is to report: in the end, how many they are.
pub fn walk_and_filter(steps: Vec<Walked>, config: &ScanConfig) -> (r: (
    Vec<FileEntry>,
    Vec<ScanEvent>,
))
    ensures
        r.0@ == kept_files(*config, steps@),
        reports(r.1@) == walk_reports(*config, steps@).push(
            Some(Report::Kept(kept_files(*config, steps@).len() as int)),
        ),
{
    let mut files: Vec<FileEntry> = Vec::new();
    let mut events: Vec<ScanEvent> = Vec::new();
    let mut scanned: usize = 0;
    let total: usize = steps.len();
    let ghost all = steps@;
    for step in it: steps
        invariant
            it.seq() == all,
            files@ == kept_files(*config, all.take(it.index())),
            reports(events@) =~= walk_reports(*config, all.take(it.index())),
            scanned == files@.len(),
            scanned <= it.index(),
            total == all.len(),
    {
        let ghost now = all.take(it.index() + 1);
        let ghost before = events@;
        assert(now.drop_last() =~= all.take(it.index()));
        assert(now.last() == step);
        let outcome = process_entry(step, config, scanned);
        scanned = outcome.scanned;
        if let Some(f) = outcome.kept {
            files.push(f);
        }
        if let Some(e) = outcome.event {
            events.push(e);
            assert(reports(events@) =~= reports(before).push(report_of(e)));
        }
        assert(files@ == kept_files(*config, now));
    }
    assert(all.take(all.len() as int) =~= all);
    let ghost before = events@;
    events.push(ScanEvent::Progress { scanned });
    assert(reports(events@) =~= reports(before).push(Some(Report::Kept(scanned as int))));
    (files, events)
}

/// A walk keeps the files that pass the filters, all of them and no others.
pub proof fn law_walk_keeps_what_passes(config: ScanConfig, steps: Seq<Walked>, e: FileEntry)
    ensures
        kept_files(config, steps).contains(e) <==> exists|i: int|
            0 <= i < steps.len() && (#[trigger] steps[i] matches Walked::File(f) && kept_file(
                config,
                f,
            ) == Some(e)),
        kept_files(config, steps).contains(e) ==> takes_file(config, e.path@, e.size),
    decreases steps.len(),
{
    if steps.len() > 0 {
        let t = steps.drop_last();
        let before = kept_files(config, t);
        let all = kept_files(config, steps);
        law_walk_keeps_what_passes(config, t, e);
        if before.contains(e) {
            let k = choose|k: int| 0 <= k < before.len() && before[k] == e;
            assert(all[k] == e);
            let i = choose|i: int|
                0 <= i < t.len() && (#[trigger] t[i] matches Walked::File(f) && kept_file(
                    config,
                    f,
                ) == Some(e));
            assert(steps[i] == t[i]);
        } else if all.contains(e) {
            let k = choose|k: int| 0 <= k < all.len() && all[k] == e;
            if k < before.len() {
                assert(before[k] == e);
            }
            assert(steps[steps.len() - 1] == steps.last());
        }
        if exists|i: int|
            0 <= i < steps.len() && (#[trigger] steps[i] matches Walked::File(f) && kept_file(
                config,
                f,
            ) == Some(e)) {
            let i = choose|i: int|
                0 <= i < steps.len() && (#[trigger] steps[i] matches Walked::File(f) && kept_file(
                    config,
                    f,
                ) == Some(e));
            if i < t.len() {
                assert(t[i] == steps[i]);
            } else {
                assert(all[before.len() as int] == e);
            }
        }
    }
}

/// Whatever else is set, a file that a walk keeps is not empty and lies within
/// the sizes that are set, has an extension that is asked for or at least not
/// excluded, is no part of an archive where those are skipped, and matches the
/// name filter in the mode that has one. Its dates are those of the file.
pub proof fn law_kept_files_meet_every_filter(config: ScanConfig, steps: Seq<Walked>, e: FileEntry)
    requires
        kept_files(config, steps).contains(e),
    ensures
        e.size > 0,
        config.min_size matches Some(min) ==> min <= e.size,
        config.max_size matches Some(max) ==> e.size <= max,
        config.extensions matches ExtensionFilter::Include(list) ==> (exists|k: int|
            0 <= k < list@.len() && paths::lower_extension(e.path@) == Some(
                (#[trigger] list@[k])@,
            )),
        config.extensions matches ExtensionFilter::Exclude(list) ==> (forall|k: int|
            0 <= k < list@.len() ==> paths::lower_extension(e.path@) != Some(
                (#[trigger] list@[k])@,
            )),
        config.skip_archives ==> archive::archive_split(paths::name_or_empty(e.path@)) is None,
        config.mode == ScanMode::MatchingFiles ==> config::passes_name_filter(
            config.name_filter@,
            paths::name_or_empty(e.path@),
        ),
        exists|i: int|
            0 <= i < steps.len() && (#[trigger] steps[i] matches Walked::File(f) && f.path@
                == e.path@ && f.size == e.size && f.modified == Some(e.modified) && e.created == (
            match f.created {
                Some(c) => c,
                None => e.modified,
            })),
{
    law_walk_keeps_what_passes(config, steps, e);
    let i = choose|i: int|
        0 <= i < steps.len() && (#[trigger] steps[i] matches Walked::File(f) && kept_file(config, f)
            == Some(e));
    assert(steps[i] matches Walked::File(f) && kept_file(config, f) == Some(e));
    if let ExtensionFilter::Include(list) = config.extensions {
        let ext = paths::lower_extension(e.path@)->0;
        let k = choose|k: int|
            0 <= k < crate::text::texts(list@).len() && crate::text::texts(list@)[k] == ext;
        assert(list@[k]@ == ext);
    }
    if let ExtensionFilter::Exclude(list) = config.extensions {
        assert forall|k: int| 0 <= k < list@.len() implies paths::lower_extension(e.path@) != Some(
            (#[trigger] list@[k])@,
        ) by {
            assert(crate::text::texts(list@)[k] == list@[k]@);
        }
    }
}

/// No file is passed over: one with a modification time that lies within the
/// sizes that are set, and that neither the extensions, the archives nor the
/// name filter rule out, is kept, with its own path, size and dates.
pub proof fn law_fitting_files_are_kept(
    config: ScanConfig,
    steps: Seq<Walked>,
    i: int,
    f: FoundFile,
    modified: Timestamp,
)
    requires
        0 <= i < steps.len(),
        steps[i] == Walked::File(f),
        f.modified == Some(modified),
        f.size > 0,
        config.min_size matches Some(min) ==> min <= f.size,
        config.max_size matches Some(max) ==> f.size <= max,
        config.extensions matches ExtensionFilter::Include(list) ==> (exists|k: int|
            0 <= k < list@.len() && paths::lower_extension(f.path@) == Some(
                (#[trigger] list@[k])@,
            )),
        config.extensions matches ExtensionFilter::Exclude(list) ==> (forall|k: int|
            0 <= k < list@.len() ==> paths::lower_extension(f.path@) != Some(
                (#[trigger] list@[k])@,
            )),
        config.skip_archives ==> archive::archive_split(paths::name_or_empty(f.path@)) is None,
        config.mode == ScanMode::MatchingFiles ==> config::passes_name_filter(
            config.name_filter@,
            paths::name_or_empty(f.path@),
        ),
    ensures
        kept_files(config, steps).contains(
            FileEntry {
                path: f.path,
                size: f.size,
                created: match f.created {
                    Some(c) => c,
                    None => modified,
                },
                modified,
            },
        ),
{
    let e = FileEntry {
        path: f.path,
        size: f.size,
        created: match f.created {
            Some(c) => c,
            None => modified,
        },
        modified,
    };
    if let ExtensionFilter::Include(list) = config.extensions {
        let k = choose|k: int|
            0 <= k < list@.len() && paths::lower_extension(f.path@) == Some(
                (#[trigger] list@[k])@,
            );
        assert(crate::text::texts(list@)[k] == list@[k]@);
    }
    if let ExtensionFilter::Exclude(list) = config.extensions {
        let ext = paths::lower_extension(f.path@);
        if ext is Some && crate::text::texts(list@).contains(ext->0) {
            let k = choose|k: int|
                0 <= k < crate::text::texts(list@).len() && crate::text::texts(list@)[k] == ext->0;
            assert(list@[k]@ == ext->0);
        }
    }
    assert(takes_file(config, f.path@, f.size));
    assert(kept_file(config, f) == Some(e));
    assert(steps[i] matches Walked::File(g) && kept_file(config, g) == Some(e));
    law_walk_keeps_what_passes(config, steps, e);
}

/// What a walk reports: every entry that was skipped, and why, and how many files
/// were kept each time that two hundred more were.
pub proof fn law_walks_report_what_they_skip(config: ScanConfig, steps: Seq<Walked>, w: Walked)
    ensures
        walk_reports(config, Seq::<Walked>::empty()).len() == 0,
        ({
            let before = walk_reports(config, steps);
            let now = walk_reports(config, steps.push(w));
            let kept = kept_files(config, steps.push(w)).len() as int;
            match w {
                Walked::Failed(e) => now == before.push(
                    Some(Report::Skipped("Skipping entry: "@ + e@)),
                ),
                Walked::Unreadable { path, error } => now == before.push(
                    Some(Report::Skipped("Skipping "@ + path@ + ": "@ + error@)),
                ),
                Walked::File(f) => if kept == kept_files(config, steps).len() + 1 && kept % 200 == 0 {
                    now == before.push(Some(Report::Kept(kept)))
                } else {
                    now == before
                },
                Walked::Other => now == before,
            }
        }),
{
    assert(steps.push(w).drop_last() =~= steps);
}

} // verus!
