//! The state of the application.
//!
//! The state here decides; scanning, deleting and all other work is up to the
//! caller, which carries out the requests that the state makes and hands back
//! what came of them.

use crate::config::{self, ExtensionFilter, ScanConfig, ScanMode, SizeUnit};
use crate::control::{self, ActiveClock, JobControl};
use crate::drive_fill::measure;
use crate::drive_fill::{CopyJob, DriveFillState, MeasureState, SpaceRequest};
use crate::flatten::{FlattenState, MoveJob, PlanRequest};
use crate::index_db::IndexDb;
use crate::model::{
    self, DeleteEvent, DupeGroup, FileEntry, MediaEntry, ScanEvent, SimilarGroup, Timestamp,
};
use crate::paths;
use crate::reencode::{ReencodeJob, ReencodeState};
use crate::reverse_search::{IndexState, LookupRequest, ReverseSearchState};
use crate::selection;
use crate::sets::{self, PathSet};
use crate::sorting;
use crate::sound::Sound;
use crate::taskbar::{Fraction, TaskbarProgress};
use crate::text;
use crate::ui::dialogs::{self, PickPurpose};
use crate::view_cache::{self, ExactRowsCache, RowInfo};
use vstd::prelude::*;

verus! {

/// Byte-level progress of the full-file hashing pass, the slow, I/O-bound
/// part of a scan on large trees. Used to show a GB-scanned readout and ETA.
#[derive(Debug)]
pub struct HashProgress {
    pub total_bytes: u64,
    pub done_bytes: u64,
    pub clock: ActiveClock,
}

impl HashProgress {
    /// The time that is left after running for `elapsed`.
    pub fn eta(&self, elapsed: u64) -> (r: Option<u128>)
        ensures
            match r {
                Some(t) => control::remaining_time(self.done_bytes, self.total_bytes, elapsed)
                    == Some(t as nat),
                None => control::remaining_time(self.done_bytes, self.total_bytes, elapsed)
                    is None,
            },
    {
        control::estimate_remaining(self.done_bytes, self.total_bytes, elapsed)
    }
}

/// A scan that is under way.
#[derive(Debug)]
pub struct ScanRun {
    pub control: JobControl,
    pub scanned: usize,
    pub hash_progress: Option<HashProgress>,
    /// Whole-scan clock, so the final "done in" time leaves out pauses.
    pub clock: ActiveClock,
}

impl ScanRun {
    /// Takes note that the full-file hashing pass has begun.
    fn start_hashing(&mut self, total_bytes: u64)
        ensures
            final(self).hash_progress matches Some(p) && p.total_bytes == total_bytes
                && p.done_bytes == 0 && p.clock.pause_start() is Some == old(self).control.paused
                && p.clock.pauses() == 0,
            *final(self) == (ScanRun { hash_progress: final(self).hash_progress, ..*old(self) }),
    {
        self.hash_progress = Some(
            HashProgress {
                total_bytes,
                done_bytes: 0,
                clock: ActiveClock::start_paused(self.control.is_paused()),
            },
        );
    }

    /// Takes note of how far that pass has come.
    fn note_hashed(&mut self, bytes_done: u64)
        ensures
            *final(self) == (ScanRun {
                hash_progress: match old(self).hash_progress {
                    Some(p) => Some(HashProgress { done_bytes: bytes_done, ..p }),
                    None => None,
                },
                ..*old(self)
            }),
    {
        if let Some(p) = self.hash_progress.take() {
            self.hash_progress = Some(
                HashProgress {
                    total_bytes: p.total_bytes,
                    done_bytes: bytes_done,
                    clock: p.clock,
                },
            );
        }
    }
}

/// Where the scan stands.
#[derive(Debug)]
pub enum ScanState {
    Idle,
    Running(ScanRun),
    Done { elapsed_ms: u128 },
}

/// A background delete in flight, fed by `DeleteEvent`s from its worker.
/// Several can run at once, each confirmed separately.
#[derive(Debug)]
pub struct DeleteJob {
    /// Unique per app session; keeps each job's widgets' ids distinct.
    pub id: u64,
    pub control: JobControl,
    /// Every path this job was given, so a later delete doesn't queue the
    /// same file twice while this one is still working through it.
    pub queued: PathSet,
    pub total: usize,
    pub done: usize,
    pub deleted_paths: PathSet,
    pub skipped: usize,
    /// Whether files are removed outright rather than moved to the trash.
    pub permanent: bool,
    pub clock: ActiveClock,
    /// The file the worker is on right now, for the progress readout.
    pub current: Option<String>,
}

impl DeleteJob {
    /// The time that is left after running for `elapsed`.
    pub fn eta(&self, elapsed: u64) -> (r: Option<u128>)
        ensures
            match r {
                Some(t) => control::remaining_time(
                    self.done as u64,
                    self.total as u64,
                    elapsed,
                ) == Some(t as nat),
                None => control::remaining_time(self.done as u64, self.total as u64, elapsed)
                    is None,
            },
    {
        control::estimate_remaining(self.done as u64, self.total as u64, elapsed)
    }

    /// All that pausing and cancelling leave alone.
    pub open spec fn same_work(self, other: DeleteJob) -> bool {
        self == (DeleteJob { control: self.control, clock: self.clock, ..other })
    }

    /// Whether the job is paused.
    pub fn is_paused(&self) -> (r: bool)
        ensures
            r == self.control.paused,
    {
        self.control.is_paused()
    }

    /// Pauses the job or lets it go on, and its clock with it.
    pub fn set_paused(&mut self, paused: bool)
        ensures
            final(self).control.paused == paused,
            final(self).control.cancelled == old(self).control.cancelled,
            final(self).clock.pause_start() is Some == paused,
            final(self).clock.follows(old(self).clock, paused),
            final(self).same_work(*old(self)),
    {
        self.control.set_paused(paused);
        if paused {
            self.clock.pause();
        } else {
            self.clock.resume();
        }
    }

    /// Stops after the file in progress; what's already gone stays gone.
    pub fn cancel(&mut self)
        ensures
            final(self).control.cancelled,
            final(self).control.paused == old(self).control.paused,
            final(self).clock.pause_start() is None,
            final(self).clock.follows(old(self).clock, false),
            final(self).same_work(*old(self)),
    {
        self.control.cancel();
        self.clock.resume();
    }

    /// Whether the job is cancelled.
    pub fn is_cancelled(&self) -> (r: bool)
        ensures
            r == self.control.cancelled,
    {
        self.control.is_cancelled()
    }
}

/// How the extension list is meant.
#[derive(Clone, Copy, Debug, PartialEq, Eq, Structural)]
pub enum ExtensionMode {
    All,
    Include,
    Exclude,
}

/// How the results are shown.
#[derive(Clone, Copy, Debug, PartialEq, Eq, Structural)]
pub enum ViewMode {
    Table,
    Grid,
}

/// Top-level section the window is showing: the regular duplicate scan, the
/// reverse-search tab (pick one file, find its matches in a persisted,
/// previously-built index), or one of the other tools.
#[derive(Clone, Copy, Debug, PartialEq, Eq, Structural)]
pub enum AppTab {
    Scan,
    ReverseSearch,
    DriveFill,
    Reencode,
    Flatten,
}

/// What the results are sorted by.
#[derive(Clone, Copy, Debug, PartialEq, Eq, Structural)]
pub enum SortColumn {
    Filename,
    Path,
    Size,
    Created,
    Modified,
}

/// Which way the results are sorted.
#[derive(Clone, Copy, Debug, PartialEq, Eq, Structural)]
pub enum SortDirection {
    Asc,
    Desc,
}

/// Which file within a duplicate group a bulk-selection action should target.
#[derive(Clone, Copy, Debug, PartialEq, Eq, Structural)]
pub enum SelectCriterion {
    Oldest,
    Newest,
    ShortestPath,
    LongestPath,
}

impl SelectCriterion {
    pub const ALL: [SelectCriterion; 4] = [
        SelectCriterion::Oldest,
        SelectCriterion::Newest,
        SelectCriterion::ShortestPath,
        SelectCriterion::LongestPath,
    ];

    /// How the criterion is shown.
    pub fn label(self) -> (r: &'static str)
        ensures
            r@ == match self {
                SelectCriterion::Oldest => "Oldest"@,
                SelectCriterion::Newest => "Newest"@,
                SelectCriterion::ShortestPath => "Shortest path"@,
                SelectCriterion::LongestPath => "Longest path"@,
            },
    {
        match self {
            SelectCriterion::Oldest => "Oldest",
            SelectCriterion::Newest => "Newest",
            SelectCriterion::ShortestPath => "Shortest path",
            SelectCriterion::LongestPath => "Longest path",
        }
    }
}

/// Something the user must confirm first.
#[derive(Clone, Copy, Debug, PartialEq, Eq, Structural)]
pub enum ConfirmAction {
    CancelScan,
    CancelIndexing,
    /// Cancel the delete job with this id.
    CancelDelete(u64),
    CancelCopy,
    CancelReencode,
    CancelFlatten,
    CloseWindow,
}

/// A delete that waits for confirmation.
#[derive(Debug, PartialEq)]
pub struct DeleteConfirmState {
    pub paths: Vec<String>,
    pub total_size: u64,
    /// Bound to the dialog's "skip the Recycle Bin" checkbox. Always starts
    /// unticked so the default stays the recoverable trash move.
    pub permanent: bool,
}

/// A file as far as bulk selection goes: where it lies and when it was
/// modified.
#[derive(Debug, PartialEq)]
pub struct TimedPath {
    pub path: String,
    pub modified: Timestamp,
}

/// The modification times.
pub open spec fn times(files: Seq<TimedPath>) -> Seq<int> {
    files.map_values(|f: TimedPath| f.modified as int)
}

/// The lengths of the paths in bytes.
pub open spec fn path_lens(files: Seq<TimedPath>) -> Seq<int> {
    files.map_values(|f: TimedPath| vstd::utf8::encode_utf8(f.path@).len() as int)
}

/// The position of the file that a criterion targets: the first of the oldest
/// or shortest, the last of the newest or longest.
pub open spec fn target(files: Seq<TimedPath>, criterion: SelectCriterion) -> int {
    match criterion {
        SelectCriterion::Oldest => view_cache::first_smallest(times(files)),
        SelectCriterion::Newest => view_cache::last_largest(times(files)),
        SelectCriterion::ShortestPath => view_cache::first_smallest(path_lens(files)),
        SelectCriterion::LongestPath => view_cache::last_largest(path_lens(files)),
    }
}

/// The paths among the first `n` files that a criterion selects.
pub open spec fn selected_paths(
    files: Seq<TimedPath>,
    criterion: SelectCriterion,
    invert: bool,
    n: nat,
) -> Seq<Seq<char>>
    decreases n,
{
    if n == 0 {
        seq![]
    } else {
        let before = selected_paths(files, criterion, invert, (n - 1) as nat);
        if (n - 1 == target(files, criterion)) != invert {
            before.push(files[n - 1].path@)
        } else {
            before
        }
    }
}

/// Adds the file of a group that `criterion` targets to the selection, or, with
/// `invert`, every other one.
pub fn apply_criterion_selection(
    files: &Vec<TimedPath>,
    criterion: SelectCriterion,
    invert: bool,
    selection: &mut PathSet,
)
    ensures
        final(selection)@ == sets::with_paths(
            old(selection)@,
            selected_paths(files@, criterion, invert, files@.len()),
        ),
{
    if files.len() == 0 {
        return;
    }
    let mut keys: Vec<i128> = Vec::new();
    let by_time: bool = criterion == SelectCriterion::Oldest || criterion
        == SelectCriterion::Newest;
    let ghost wanted = if by_time {
        times(files@)
    } else {
        path_lens(files@)
    };
    let mut i: usize = 0;
    while i < files.len()
        invariant
            i <= files@.len(),
            keys@.len() == i,
            wanted == (if by_time {
                times(files@)
            } else {
                path_lens(files@)
            }),
            forall|k: int| 0 <= k < i ==> (#[trigger] keys@[k]) as int == wanted[k],
        decreases files@.len() - i,
    {
        let key: i128 = if by_time {
            files[i].modified
        } else {
            files[i].path.as_str().as_bytes().len() as i128
        };
        keys.push(key);
        i = i + 1;
    }
    assert(view_cache::as_ints(keys@) =~= wanted);
    let at: usize = match criterion {
        SelectCriterion::Oldest | SelectCriterion::ShortestPath => {
            view_cache::find_first_smallest(&keys)
        },
        SelectCriterion::Newest | SelectCriterion::LongestPath => {
            view_cache::find_last_largest(&keys)
        },
    };
    assert(at == target(files@, criterion));
    let ghost before = selection@;
    assert(sets::with_paths(before, seq![]) == before);
    let mut i: usize = 0;
    while i < files.len()
        invariant
            i <= files@.len(),
            at == target(files@, criterion),
            selection@ == sets::with_paths(
                before,
                selected_paths(files@, criterion, invert, i as nat),
            ),
        decreases files@.len() - i,
    {
        let ghost chosen = selected_paths(files@, criterion, invert, i as nat);
        if (i == at) != invert {
            assert(chosen.push(files@[i as int].path@).drop_last() =~= chosen);
            selection.insert(files[i].path.clone());
        }
        i = i + 1;
    }
}

/// With `invert`, everything is selected but what is selected without it, so
/// that of every group some file is kept.
pub proof fn law_invert_selects_the_rest(
    files: Seq<TimedPath>,
    criterion: SelectCriterion,
    n: nat,
)
    requires
        n <= files.len(),
    ensures
        selected_paths(files, criterion, false, n).len() + selected_paths(
            files,
            criterion,
            true,
            n,
        ).len() == n,
        n == files.len() && n > 0 ==> selected_paths(files, criterion, false, n) == seq![
            files[target(files, criterion)].path@,
        ],
{
    if n > 0 {
        lemma_target(files, criterion);
        lemma_one_selected(files, criterion, n);
        lemma_selected_counts(files, criterion, n);
    }
}

proof fn lemma_selected_counts(files: Seq<TimedPath>, criterion: SelectCriterion, n: nat)
    ensures
        selected_paths(files, criterion, false, n).len() + selected_paths(
            files,
            criterion,
            true,
            n,
        ).len() == n,
    decreases n,
{
    if n > 0 {
        lemma_selected_counts(files, criterion, (n - 1) as nat);
    }
}

proof fn lemma_target(files: Seq<TimedPath>, criterion: SelectCriterion)
    requires
        files.len() > 0,
    ensures
        0 <= target(files, criterion) < files.len(),
{
    view_cache::lemma_smallest_in_range(times(files));
    view_cache::lemma_smallest_in_range(path_lens(files));
}

proof fn lemma_one_selected(files: Seq<TimedPath>, criterion: SelectCriterion, n: nat)
    requires
        n <= files.len(),
        files.len() > 0,
    ensures
        selected_paths(files, criterion, false, n) == (if target(files, criterion) < n {
            seq![files[target(files, criterion)].path@]
        } else {
            seq![]
        }),
    decreases n,
{
    lemma_target(files, criterion);
    if n > 0 {
        lemma_one_selected(files, criterion, (n - 1) as nat);
        if n - 1 == target(files, criterion) {
            assert(selected_paths(files, criterion, false, n) =~= seq![
                files[target(files, criterion)].path@,
            ]);
        }
    }
}

/// The state of the application.
#[derive(Debug)]
pub struct DupeApp {
    pub config: ScanConfig,
    pub only_show_duplicates: bool,
    pub only_show_name_copies: bool,
    pub view_mode: ViewMode,
    pub groups: Vec<DupeGroup>,
    pub similar_groups: Vec<SimilarGroup>,
    /// What `ScanMode::MatchingFiles` found.
    pub matched_files: Vec<FileEntry>,
    /// Bumped every time `groups` is mutated (new group found, groups pruned
    /// after a delete, scan restarted). `exact_rows_cache` is keyed on this
    /// so it only rebuilds when the underlying data actually changed, rather
    /// than every frame.
    pub groups_generation: u64,
    pub exact_rows_cache: ExactRowsCache,
    /// The `ScanMode` the currently-displayed results came from; set when a
    /// scan starts so mid-scan mode changes never mismatch results and views.
    pub active_mode: ScanMode,
    pub selection: PathSet,
    pub scan_state: ScanState,
    pub status_message: Option<String>,
    // Settings-panel transient state (raw text kept separately so users can
    // type freely; parsed into `config` only when a scan starts).
    pub min_size_text: String,
    pub max_size_text: String,
    pub size_unit: SizeUnit,
    pub extension_mode: ExtensionMode,
    pub extension_text: String,
    pub sort: Option<(SortColumn, SortDirection)>,
    pub select_criterion: SelectCriterion,
    pub select_invert: bool,
    pub delete_confirm: Option<DeleteConfirmState>,
    pub delete_jobs: Vec<DeleteJob>,
    pub next_delete_job_id: u64,
    pub tab: AppTab,
    pub reverse_search: ReverseSearchState,
    pub drive_fill: DriveFillState,
    pub reencode: ReencodeState,
    pub flatten: FlattenState,
    /// Whether to play a chime when a scan or delete finishes.
    pub play_sounds: bool,
    pub pending_confirm: Option<ConfirmAction>,
    /// Set once closing has been confirmed, so the close goes through.
    pub allow_close: bool,
}

/// Whether a path is queued in one of the delete jobs.
pub open spec fn queues(jobs: Seq<DeleteJob>, path: Seq<char>) -> bool {
    exists|j: int|
        0 <= j < jobs.len() && (#[trigger] jobs[j]).queued@.contains_key(paths::path_id(path))
}

/// The listed paths that are not queued yet.
pub open spec fn unqueued(jobs: Seq<DeleteJob>, list: Seq<Seq<char>>) -> Seq<Seq<char>>
    decreases list.len(),
{
    if list.len() == 0 {
        seq![]
    } else if queues(jobs, list.last()) {
        unqueued(jobs, list.drop_last())
    } else {
        unqueued(jobs, list.drop_last()).push(list.last())
    }
}

/// Whether none of the listed paths is queued.
pub open spec fn none_queued(jobs: Seq<DeleteJob>, list: Seq<Seq<char>>) -> bool {
    forall|k: int| 0 <= k < list.len() ==> !queues(jobs, #[trigger] list[k])
}

proof fn lemma_unqueued(jobs: Seq<DeleteJob>, list: Seq<Seq<char>>)
    ensures
        none_queued(jobs, unqueued(jobs, list)),
    decreases list.len(),
{
    if list.len() > 0 {
        lemma_unqueued(jobs, list.drop_last());
    }
}

/// Whether no path is queued in two of the delete jobs.
pub open spec fn queue_once(jobs: Seq<DeleteJob>) -> bool {
    forall|i: int, j: int, id: Seq<char>|
        0 <= i < j < jobs.len() && #[trigger] jobs[i].queued@.contains_key(id)
            ==> !#[trigger] jobs[j].queued@.contains_key(id)
}

/// Whether the delete jobs have numbers of their own, below `next`.
pub open spec fn have_ids(jobs: Seq<DeleteJob>, next: u64) -> bool {
    &&& forall|i: int| 0 <= i < jobs.len() ==> (#[trigger] jobs[i]).id < next
    &&& forall|i: int, j: int|
        0 <= i < j < jobs.len() ==> (#[trigger] jobs[i]).id != (#[trigger] jobs[j]).id
}

/// Whether no group is empty.
pub open spec fn have_media(groups: Seq<SimilarGroup>) -> bool {
    forall|g: int| 0 <= g < groups.len() ==> (#[trigger] groups[g]).files@.len() > 0
}

impl DupeApp {
    /// Whether the rows in the cache are those of the groups, unless the
    /// generation says otherwise.
    pub open spec fn caches_current_rows(self) -> bool {
        self.exact_rows_cache.key matches Some(k) ==> {
            &&& k.generation <= self.groups_generation
            &&& k.generation == self.groups_generation ==> self.exact_rows_cache.rows@
                == view_cache::shown_rows(self.groups@, k.name_filter, k.only_dup, k.sort)
        }
    }

    /// Whether no file is ever given to two delete jobs.
    pub open spec fn deletes_once(self) -> bool {
        &&& queue_once(self.delete_jobs@)
        &&& have_ids(self.delete_jobs@, self.next_delete_job_id)
        &&& self.delete_confirm matches Some(c) ==> none_queued(
            self.delete_jobs@,
            text::texts(c.paths@),
        )
    }

    /// What holds all the time: every group has an original, the cache is told
    /// of every change of the groups, and no file is given to two delete jobs.
    pub open spec fn is_sound(self) -> bool {
        &&& view_cache::have_originals(self.groups@)
        &&& have_media(self.similar_groups@)
        &&& self.caches_current_rows()
        &&& self.deletes_once()
    }

    /// Nothing scanned yet, over an index as it was loaded.
    pub fn new(db: IndexDb) -> (r: Self)
        ensures
            r.is_sound(),
            r.groups@.len() == 0,
            r.similar_groups@.len() == 0,
            r.matched_files@.len() == 0,
            r.scan_state is Idle,
            r.active_mode is ExactContent,
            r.selection@ == Map::<Seq<char>, Seq<char>>::empty(),
            r.delete_jobs@.len() == 0,
            r.delete_confirm is None,
            r.pending_confirm is None,
            r.status_message is None,
            r.config.folders@.len() == 0,
            r.sort is None,
            r.size_unit is MB,
            r.extension_mode is All,
            r.select_criterion is Oldest,
            r.view_mode is Table,
            r.tab is Scan,
            r.play_sounds,
            !r.only_show_duplicates,
            !r.only_show_name_copies,
            !r.select_invert,
            !r.allow_close,
            r.next_delete_job_id == 0,
            r.min_size_text@.len() == 0,
            r.max_size_text@.len() == 0,
            r.extension_text@.len() == 0,
            r.config.mode is ExactContent,
            r.config.extensions is All,
            r.config.min_size is None,
            r.config.max_size is None,
            r.config.similarity_threshold == 10,
            r.config.skip_archives,
            !r.config.exclude_subfolders,
            !r.config.same_folder_only,
            r.config.name_filter@.len() == 0,
            r.reverse_search.db == db,
            r.reverse_search.index_folders@.len() == 0,
            r.reverse_search.results@.len() == 0,
            r.work_names().len() == 0,
            r.drive_fill.source is None,
            r.drive_fill.target is None,
            r.drive_fill.folders@.len() == 0,
            r.drive_fill.reserve_mb == 256,
            r.reencode.folders@.len() == 0,
            r.flatten.root is None,
    {
        DupeApp {
            config: ScanConfig::default(),
            only_show_duplicates: false,
            only_show_name_copies: false,
            view_mode: ViewMode::Table,
            groups: Vec::new(),
            similar_groups: Vec::new(),
            matched_files: Vec::new(),
            groups_generation: 0,
            exact_rows_cache: ExactRowsCache::default(),
            active_mode: ScanMode::ExactContent,
            selection: PathSet::new(),
            scan_state: ScanState::Idle,
            status_message: None,
            min_size_text: String::new(),
            max_size_text: String::new(),
            size_unit: SizeUnit::MB,
            extension_mode: ExtensionMode::All,
            extension_text: String::new(),
            sort: None,
            select_criterion: SelectCriterion::Oldest,
            select_invert: false,
            delete_confirm: None,
            delete_jobs: Vec::new(),
            next_delete_job_id: 0,
            tab: AppTab::Scan,
            reverse_search: ReverseSearchState::new(db),
            drive_fill: DriveFillState::default(),
            reencode: ReencodeState::default(),
            flatten: FlattenState::default(),
            play_sounds: true,
            pending_confirm: None,
            allow_close: false,
        }
    }

    /// Whether a scan is under way.
    pub fn is_scanning(&self) -> (r: bool)
        ensures
            r == (self.scan_state is Running),
    {
        match self.scan_state {
            ScanState::Running(_) => true,
            _ => false,
        }
    }

    /// Whether a scan can be started: there is something to scan, and no scan
    /// is under way.
    pub fn can_scan(&self) -> (r: bool)
        ensures
            r == (self.config.folders@.len() > 0 && !(self.scan_state is Running)),
    {
        self.config.folders.len() > 0 && !self.is_scanning()
    }

    /// Takes note that the groups are about to change.
    fn touch_groups(&mut self)
        requires
            old(self).caches_current_rows(),
        ensures
            final(self).exact_rows_cache.key matches Some(k) ==> k.generation
                < final(self).groups_generation,
            final(self).groups_generation != old(self).groups_generation,
            *final(self) == (DupeApp {
                groups_generation: final(self).groups_generation,
                exact_rows_cache: final(self).exact_rows_cache,
                ..*old(self)
            }),
    {
        if self.groups_generation < 0xffff_ffff_ffff_ffff {
            self.groups_generation = self.groups_generation + 1;
        } else {
            self.groups_generation = 0;
            self.exact_rows_cache = ExactRowsCache::default();
        }
    }

    /// Starts a scan with the sizes as they were entered: the configuration is
    /// then what is to be scanned.
    pub fn start_scan(&mut self, min_size: Option<u64>, max_size: Option<u64>)
        requires
            old(self).is_sound(),
        ensures
            final(self).is_sound(),
            final(self).config.min_size == min_size,
            final(self).config.max_size == max_size,
            match old(self).extension_mode {
                ExtensionMode::All => final(self).config.extensions is All,
                ExtensionMode::Include => final(self).config.extensions matches
                    ExtensionFilter::Include(list) && text::texts(list@) == config::extension_list(
                    old(self).extension_text@,
                ),
                ExtensionMode::Exclude => final(self).config.extensions matches
                    ExtensionFilter::Exclude(list) && text::texts(list@) == config::extension_list(
                    old(self).extension_text@,
                ),
            },
            final(self).config == (ScanConfig {
                min_size,
                max_size,
                extensions: final(self).config.extensions,
                ..old(self).config
            }),
            final(self).groups@.len() == 0,
            final(self).similar_groups@.len() == 0,
            final(self).matched_files@.len() == 0,
            final(self).groups_generation != old(self).groups_generation,
            final(self).active_mode == old(self).config.mode,
            final(self).selection@ == Map::<Seq<char>, Seq<char>>::empty(),
            final(self).status_message is None,
            final(self).scan_state matches ScanState::Running(run) && !run.control.cancelled
                && !run.control.paused && run.scanned == 0 && run.hash_progress is None
                && run.clock.pause_start() is None && run.clock.pauses() == 0,
            *final(self) == (DupeApp {
                config: final(self).config,
                groups: final(self).groups,
                similar_groups: final(self).similar_groups,
                matched_files: final(self).matched_files,
                groups_generation: final(self).groups_generation,
                exact_rows_cache: final(self).exact_rows_cache,
                active_mode: final(self).active_mode,
                selection: final(self).selection,
                status_message: final(self).status_message,
                scan_state: final(self).scan_state,
                ..*old(self)
            }),
    {
        self.config.min_size = min_size;
        self.config.max_size = max_size;
        self.config.extensions = match self.extension_mode {
            ExtensionMode::All => ExtensionFilter::All,
            ExtensionMode::Include => ExtensionFilter::Include(
                config::parse_extension_list(self.extension_text.as_str()),
            ),
            ExtensionMode::Exclude => ExtensionFilter::Exclude(
                config::parse_extension_list(self.extension_text.as_str()),
            ),
        };
        self.touch_groups();
        self.groups = Vec::new();
        self.similar_groups = Vec::new();
        self.matched_files = Vec::new();
        self.active_mode = self.config.mode;
        self.selection = PathSet::new();
        self.status_message = None;
        self.scan_state = ScanState::Running(
            ScanRun {
                control: JobControl::default(),
                scanned: 0,
                hash_progress: None,
                clock: ActiveClock::start(),
            },
        );
    }

    /// Has the scan stopped.
    pub fn cancel_scan(&mut self)
        ensures
            old(self).is_sound() ==> final(self).is_sound(),
            match old(self).scan_state {
                ScanState::Running(a) => final(self).scan_state matches ScanState::Running(b)
                    && b.control.cancelled && b.control.paused == a.control.paused && b == (ScanRun {
                    control: b.control,
                    ..a
                }),
                _ => final(self).scan_state == old(self).scan_state,
            },
            *final(self) == (DupeApp { scan_state: final(self).scan_state, ..*old(self) }),
    {
        let mut state: ScanState = ScanState::Idle;
        std::mem::swap(&mut state, &mut self.scan_state);
        self.scan_state = match state {
            ScanState::Running(run) => {
                let mut run: ScanRun = run;
                run.control.cancel();
                ScanState::Running(run)
            },
            other => other,
        };
    }

    /// Whether the scan is paused.
    pub fn is_scan_paused(&self) -> (r: bool)
        ensures
            r == (self.scan_state matches ScanState::Running(run) && run.control.paused),
    {
        match &self.scan_state {
            ScanState::Running(run) => run.control.is_paused(),
            _ => false,
        }
    }

    /// Pauses a running scan (its workers block at their next checkpoint) or
    /// resumes a paused one, and its clocks with it.
    pub fn toggle_scan_pause(&mut self)
        ensures
            old(self).is_sound() ==> final(self).is_sound(),
            match old(self).scan_state {
                ScanState::Running(a) => {
                    &&& final(self).scan_state matches ScanState::Running(b)
                    &&& b.control.paused == !a.control.paused
                    &&& b.control.cancelled == a.control.cancelled
                    &&& b.scanned == a.scanned
                    &&& b.clock.pause_start() is Some == b.control.paused
                    &&& b.clock.follows(a.clock, b.control.paused)
                    &&& match a.hash_progress {
                        Some(p) => b.hash_progress matches Some(q) && q.total_bytes
                            == p.total_bytes && q.done_bytes == p.done_bytes
                            && q.clock.pause_start() is Some == b.control.paused
                            && q.clock.follows(p.clock, b.control.paused),
                        None => b.hash_progress is None,
                    }
                },
                _ => final(self).scan_state == old(self).scan_state,
            },
            *final(self) == (DupeApp { scan_state: final(self).scan_state, ..*old(self) }),
    {
        let mut state: ScanState = ScanState::Idle;
        std::mem::swap(&mut state, &mut self.scan_state);
        self.scan_state = match state {
            ScanState::Running(run) => {
                let mut run: ScanRun = run;
                let paused: bool = !run.control.is_paused();
                run.control.set_paused(paused);
                let progress: Option<HashProgress> = run.hash_progress.take();
                if paused {
                    run.clock.pause();
                } else {
                    run.clock.resume();
                }
                run.hash_progress = match progress {
                    Some(p) => {
                        let mut p: HashProgress = p;
                        if paused {
                            p.clock.pause();
                        } else {
                            p.clock.resume();
                        }
                        Some(p)
                    },
                    None => None,
                };
                ScanState::Running(run)
            },
            other => other,
        };
    }

    /// Takes what a scan reports, with the time `paused` that it has been
    /// paused for, in nanoseconds. Gives the sound to be played, if any.
    pub fn take_scan_event_at(&mut self, event: ScanEvent, paused: u64) -> (r: Option<Sound>)
        requires
            old(self).is_sound(),
            event matches ScanEvent::GroupFound(g) ==> g.files@.len() > 0,
            event matches ScanEvent::SimilarGroupFound(g) ==> g.files@.len() > 0,
        ensures
            final(self).is_sound(),
            old(self).scan_state matches ScanState::Running(run) ==> takes_scan_event(
                *old(self),
                run,
                event,
                paused,
                *final(self),
            ),
            !(old(self).scan_state is Running) ==> *final(self) == *old(self),
            r == (match (old(self).scan_state, event) {
                (ScanState::Running(run), ScanEvent::Done { .. }) => if old(self).play_sounds
                    && !run.control.cancelled {
                    Some(Sound::ScanFinished)
                } else {
                    None
                },
                _ => None,
            }),
    {
        if !self.is_scanning() {
            return None;
        }
        match event {
            ScanEvent::Progress { .. } | ScanEvent::HashPhaseStarted { .. } | ScanEvent::HashProgress {
                ..
            } => {
                self.note_progress(event);
                None
            },
            ScanEvent::GroupFound(group) => {
                self.add_group(group);
                None
            },
            ScanEvent::SimilarGroupFound(group) => {
                self.add_similar_group(group);
                None
            },
            ScanEvent::FilesMatched(files) => {
                self.add_matched_files(files);
                None
            },
            ScanEvent::Done { elapsed_ms } => self.finish_scan(elapsed_ms, paused),
            ScanEvent::Error(msg) => {
                self.status_message = Some(msg);
                None
            },
        }
    }

    fn note_progress(&mut self, event: ScanEvent)
        requires
            old(self).scan_state is Running,
            event is Progress || event is HashPhaseStarted || event is HashProgress,
        ensures
            takes_scan_event(*old(self), old(self).scan_state->Running_0, event, 0, *final(self)),
    {
        let mut state: ScanState = ScanState::Idle;
        std::mem::swap(&mut state, &mut self.scan_state);
        if let ScanState::Running(run) = state {
            let mut run: ScanRun = run;
            match event {
                ScanEvent::Progress { scanned } => {
                    run.scanned = scanned;
                },
                ScanEvent::HashPhaseStarted { total_bytes } => {
                    run.start_hashing(total_bytes);
                },
                ScanEvent::HashProgress { bytes_done } => {
                    run.note_hashed(bytes_done);
                },
                _ => {},
            }
            self.scan_state = ScanState::Running(run);
        }
    }

    fn add_group(&mut self, group: DupeGroup)
        requires
            old(self).is_sound(),
            group.files@.len() > 0,
        ensures
            final(self).is_sound(),
            final(self).groups@ == old(self).groups@.push(group),
            final(self).groups_generation != old(self).groups_generation,
            *final(self) == (DupeApp {
                groups: final(self).groups,
                groups_generation: final(self).groups_generation,
                exact_rows_cache: final(self).exact_rows_cache,
                ..*old(self)
            }),
    {
        self.touch_groups();
        self.groups.push(group);
    }

    fn add_similar_group(&mut self, group: SimilarGroup)
        requires
            old(self).is_sound(),
            group.files@.len() > 0,
        ensures
            final(self).is_sound(),
            final(self).similar_groups@ == old(self).similar_groups@.push(group),
            *final(self) == (DupeApp { similar_groups: final(self).similar_groups, ..*old(self) }),
    {
        self.similar_groups.push(group);
    }

    fn add_matched_files(&mut self, files: Vec<FileEntry>)
        ensures
            final(self).matched_files@ == old(self).matched_files@ + files@,
            *final(self) == (DupeApp { matched_files: final(self).matched_files, ..*old(self) }),
    {
        let mut files: Vec<FileEntry> = files;
        self.matched_files.append(&mut files);
    }

    fn finish_scan(&mut self, elapsed_ms: u128, paused: u64) -> (r: Option<Sound>)
        requires
            old(self).scan_state is Running,
        ensures
            takes_scan_event(
                *old(self),
                old(self).scan_state->Running_0,
                ScanEvent::Done { elapsed_ms },
                paused,
                *final(self),
            ),
            r == (if old(self).play_sounds && !old(self).scan_state->Running_0.control.cancelled {
                Some(Sound::ScanFinished)
            } else {
                None
            }),
    {
        let cancelled: bool = match &self.scan_state {
            ScanState::Running(run) => run.control.is_cancelled(),
            _ => false,
        };
        let paused_ms: u128 = (paused / 1_000_000) as u128;
        self.scan_state = ScanState::Done { elapsed_ms: elapsed_ms.saturating_sub(paused_ms) };
        if self.play_sounds && !cancelled {
            Some(Sound::ScanFinished)
        } else {
            None
        }
    }

    /// Takes what a scan reports. Gives the sound to be played, if any.
    pub fn take_scan_event(&mut self, event: ScanEvent) -> (r: Option<Sound>)
        requires
            old(self).is_sound(),
            event matches ScanEvent::GroupFound(g) ==> g.files@.len() > 0,
            event matches ScanEvent::SimilarGroupFound(g) ==> g.files@.len() > 0,
        ensures
            final(self).is_sound(),
            old(self).scan_state matches ScanState::Running(run) ==> exists|paused: u64|
                #![trigger takes_scan_event(*old(self), run, event, paused, *final(self))]
                (exists|now: u64| paused == #[trigger] run.clock.paused_by(now))
                    && takes_scan_event(
                    *old(self),
                    run,
                    event,
                    paused,
                    *final(self),
                ),
            !(old(self).scan_state is Running) ==> *final(self) == *old(self),
            r == (match (old(self).scan_state, event) {
                (ScanState::Running(run), ScanEvent::Done { .. }) => if old(self).play_sounds
                    && !run.control.cancelled {
                    Some(Sound::ScanFinished)
                } else {
                    None
                },
                _ => None,
            }),
    {
        let paused: u64 = match &self.scan_state {
            ScanState::Running(run) => run.clock.paused_total(),
            _ => 0,
        };
        self.take_scan_event_at(event, paused)
    }

    /// Rebuilds `exact_rows_cache` if it's stale; a cheap no-op otherwise.
    /// Called once per frame, before anything that reads the cache.
    pub fn refresh_exact_rows_cache(&mut self)
        requires
            old(self).is_sound(),
        ensures
            final(self).is_sound(),
            final(self).exact_rows_cache.rows@ == view_cache::shown_rows(
                old(self).groups@,
                old(self).only_show_name_copies,
                old(self).only_show_duplicates,
                old(self).sort,
            ),
            *final(self) == (DupeApp {
                exact_rows_cache: final(self).exact_rows_cache,
                ..*old(self)
            }),
    {
        let mut cache: ExactRowsCache = ExactRowsCache::default();
        std::mem::swap(&mut cache, &mut self.exact_rows_cache);
        cache.refresh(
            self.groups.as_slice(),
            self.groups_generation,
            self.only_show_name_copies,
            self.only_show_duplicates,
            self.sort,
        );
        self.exact_rows_cache = cache;
    }
}

/// What becomes of the state when a running scan reports something, having
/// been paused for `paused` nanoseconds.
pub open spec fn takes_scan_event(
    a: DupeApp,
    run: ScanRun,
    event: ScanEvent,
    paused: u64,
    b: DupeApp,
) -> bool {
    match event {
        ScanEvent::Progress { scanned } => b == (DupeApp {
            scan_state: ScanState::Running(ScanRun { scanned, ..run }),
            ..a
        }),
        ScanEvent::HashPhaseStarted { total_bytes } => {
            &&& b.scan_state matches ScanState::Running(now)
            &&& now.hash_progress matches Some(p)
            &&& p.total_bytes == total_bytes && p.done_bytes == 0
            &&& p.clock.pause_start() is Some == run.control.paused && p.clock.pauses() == 0
            &&& now == (ScanRun { hash_progress: now.hash_progress, ..run })
            &&& b == (DupeApp { scan_state: b.scan_state, ..a })
        },
        ScanEvent::HashProgress { bytes_done } => b == (DupeApp {
            scan_state: ScanState::Running(
                ScanRun {
                    hash_progress: match run.hash_progress {
                        Some(p) => Some(HashProgress { done_bytes: bytes_done, ..p }),
                        None => None,
                    },
                    ..run
                },
            ),
            ..a
        }),
        ScanEvent::GroupFound(group) => {
            &&& b.groups@ == a.groups@.push(group)
            &&& b.groups_generation != a.groups_generation
            &&& b == (DupeApp {
                groups: b.groups,
                groups_generation: b.groups_generation,
                exact_rows_cache: b.exact_rows_cache,
                ..a
            })
        },
        ScanEvent::SimilarGroupFound(group) => {
            &&& b.similar_groups@ == a.similar_groups@.push(group)
            &&& b == (DupeApp { similar_groups: b.similar_groups, ..a })
        },
        ScanEvent::FilesMatched(files) => {
            &&& b.matched_files@ == a.matched_files@ + files@
            &&& b == (DupeApp { matched_files: b.matched_files, ..a })
        },
        ScanEvent::Done { elapsed_ms } => b == (DupeApp {
            scan_state: ScanState::Done {
                elapsed_ms: if elapsed_ms >= paused / 1_000_000 {
                    (elapsed_ms - paused / 1_000_000) as u128
                } else {
                    0
                },
            },
            ..a
        }),
        ScanEvent::Error(msg) => b == (DupeApp { status_message: Some(msg), ..a }),
    }
}

/// The files as far as bulk selection goes.
pub open spec fn timed_files(files: Seq<FileEntry>) -> Seq<TimedPath> {
    files.map_values(|f: FileEntry| TimedPath { path: f.path, modified: f.modified })
}

/// The pictures and videos as far as bulk selection goes.
pub open spec fn timed_media(files: Seq<MediaEntry>) -> Seq<TimedPath> {
    files.map_values(|f: MediaEntry| TimedPath { path: f.path, modified: f.modified })
}

fn time_files(files: &Vec<FileEntry>) -> (r: Vec<TimedPath>)
    ensures
        r@ == timed_files(files@),
{
    let mut out: Vec<TimedPath> = Vec::new();
    let mut i: usize = 0;
    while i < files.len()
        invariant
            i <= files@.len(),
            out@ =~= timed_files(files@.take(i as int)),
        decreases files@.len() - i,
    {
        out.push(TimedPath { path: files[i].path.clone(), modified: files[i].modified });
        i = i + 1;
    }
    assert(files@.take(files@.len() as int) =~= files@);
    out
}

fn time_media(files: &Vec<MediaEntry>) -> (r: Vec<TimedPath>)
    ensures
        r@ == timed_media(files@),
{
    let mut out: Vec<TimedPath> = Vec::new();
    let mut i: usize = 0;
    while i < files.len()
        invariant
            i <= files@.len(),
            out@ =~= timed_media(files@.take(i as int)),
        decreases files@.len() - i,
    {
        out.push(TimedPath { path: files[i].path.clone(), modified: files[i].modified });
        i = i + 1;
    }
    assert(files@.take(files@.len() as int) =~= files@);
    out
}

/// The groups as far as bulk selection goes.
pub open spec fn timed_groups(groups: Seq<DupeGroup>) -> Seq<Seq<TimedPath>> {
    groups.map_values(|g: DupeGroup| timed_files(g.files@))
}

/// The groups of pictures and videos as far as bulk selection goes.
pub open spec fn timed_similar_groups(groups: Seq<SimilarGroup>) -> Seq<Seq<TimedPath>> {
    groups.map_values(|g: SimilarGroup| timed_media(g.files@))
}

/// The selection after a criterion was applied to each group.
pub open spec fn criterion_selection(
    selection: Map<Seq<char>, Seq<char>>,
    groups: Seq<Seq<TimedPath>>,
    criterion: SelectCriterion,
    invert: bool,
) -> Map<Seq<char>, Seq<char>>
    decreases groups.len(),
{
    if groups.len() == 0 {
        selection
    } else {
        let files = groups.last();
        sets::with_paths(
            criterion_selection(selection, groups.drop_last(), criterion, invert),
            selected_paths(files, criterion, invert, files.len()),
        )
    }
}

/// What is shown of a file: its path and its size.
pub type Shown = (String, u64);

/// What is shown of the files.
pub open spec fn shown_of_files(files: Seq<FileEntry>) -> Seq<Shown> {
    files.map_values(|f: FileEntry| (f.path, f.size))
}

/// What is shown of the pictures and videos.
pub open spec fn shown_of_media(files: Seq<MediaEntry>) -> Seq<Shown> {
    files.map_values(|f: MediaEntry| (f.path, f.size))
}

/// The paths of what is shown.
pub open spec fn shown_paths(shown: Seq<Shown>) -> Seq<Seq<char>> {
    shown.map_values(|s: Shown| s.0@)
}

/// The sizes of what is shown together, as far as the paths are in the set.
pub open spec fn size_within(shown: Seq<Shown>, set: Map<Seq<char>, Seq<char>>) -> nat
    decreases shown.len(),
{
    if shown.len() == 0 {
        0
    } else {
        size_within(shown.drop_last(), set) + (if set.contains_key(
            paths::path_id(shown.last().0@),
        ) {
            shown.last().1 as nat
        } else {
            0
        })
    }
}

/// How many paths of what is shown are in the set.
pub open spec fn count_within(shown: Seq<Shown>, set: Map<Seq<char>, Seq<char>>) -> nat
    decreases shown.len(),
{
    if shown.len() == 0 {
        0
    } else {
        count_within(shown.drop_last(), set) + (if set.contains_key(
            paths::path_id(shown.last().0@),
        ) {
            1nat
        } else {
            0nat
        })
    }
}

/// The sizes of what is shown together.
pub open spec fn size_of(shown: Seq<Shown>) -> nat
    decreases shown.len(),
{
    if shown.len() == 0 {
        0
    } else {
        size_of(shown.drop_last()) + shown.last().1 as nat
    }
}

fn list_files(files: &Vec<&FileEntry>) -> (r: Vec<Shown>)
    ensures
        r@ == shown_of_files(selection::targets(files@)),
{
    let mut out: Vec<Shown> = Vec::new();
    let mut i: usize = 0;
    while i < files.len()
        invariant
            i <= files@.len(),
            out@ =~= shown_of_files(selection::targets(files@.take(i as int))),
        decreases files@.len() - i,
    {
        out.push((files[i].path.clone(), files[i].size));
        i = i + 1;
    }
    assert(files@.take(files@.len() as int) =~= files@);
    out
}

fn list_media(files: &Vec<&MediaEntry>) -> (r: Vec<Shown>)
    ensures
        r@ == shown_of_media(selection::targets(files@)),
{
    let mut out: Vec<Shown> = Vec::new();
    let mut i: usize = 0;
    while i < files.len()
        invariant
            i <= files@.len(),
            out@ =~= shown_of_media(selection::targets(files@.take(i as int))),
        decreases files@.len() - i,
    {
        out.push((files[i].path.clone(), files[i].size));
        i = i + 1;
    }
    assert(files@.take(files@.len() as int) =~= files@);
    out
}

fn refer_files<'a>(files: &'a Vec<FileEntry>) -> (r: Vec<&'a FileEntry>)
    ensures
        selection::targets(r@) == files@,
{
    let mut out: Vec<&'a FileEntry> = Vec::new();
    let mut i: usize = 0;
    while i < files.len()
        invariant
            i <= files@.len(),
            selection::targets(out@) =~= files@.take(i as int),
        decreases files@.len() - i,
    {
        let ghost before = selection::targets(out@);
        out.push(&files[i]);
        assert(selection::targets(out@) =~= before.push(files@[i as int]));
        i = i + 1;
    }
    assert(files@.take(files@.len() as int) =~= files@);
    out
}

fn refer_groups<'a>(groups: &'a Vec<SimilarGroup>) -> (r: Vec<&'a SimilarGroup>)
    ensures
        selection::targets(r@) == groups@,
{
    let mut out: Vec<&'a SimilarGroup> = Vec::new();
    let mut i: usize = 0;
    while i < groups.len()
        invariant
            i <= groups@.len(),
            selection::targets(out@) =~= groups@.take(i as int),
        decreases groups@.len() - i,
    {
        let ghost before = selection::targets(out@);
        out.push(&groups[i]);
        assert(selection::targets(out@) =~= before.push(groups@[i as int]));
        i = i + 1;
    }
    assert(groups@.take(groups@.len() as int) =~= groups@);
    out
}

/// What the status bar says of the files that are shown.
#[derive(Clone, Copy, Debug, PartialEq, Eq, Structural)]
pub struct ShownSummary {
    pub count: usize,
    pub size: u64,
    pub selected_count: usize,
    pub selected_size: u64,
}

impl DupeApp {
    /// The files that the current settings show.
    pub open spec fn visible_files(self) -> Seq<Shown> {
        self.results(self.only_show_name_copies, self.only_show_duplicates)
    }

    /// The files among the results, of the groups with copy-like names or of
    /// all, the originals left out or not.
    pub open spec fn results(self, name_copies: bool, duplicates: bool) -> Seq<Shown> {
        match self.active_mode {
            ScanMode::ExactContent => shown_of_files(
                selection::visible(
                    model::file_lists(
                        if name_copies {
                            selection::copy_named(self.groups@)
                        } else {
                            self.groups@
                        },
                    ),
                    duplicates,
                ),
            ),
            ScanMode::SimilarMedia => shown_of_media(
                selection::visible(model::media_lists(self.similar_groups@), duplicates),
            ),
            ScanMode::MatchingFiles => shown_of_files(self.matched_files@),
        }
    }

    fn list_results(&self, name_copies: bool, duplicates: bool) -> (r: Vec<Shown>)
        requires
            self.is_sound(),
        ensures
            r@ == self.results(name_copies, duplicates),
    {
        match self.active_mode {
            ScanMode::ExactContent => {
                let groups = selection::filter_by_name_pattern(self.groups.as_slice(), name_copies);
                proof {
                    lemma_copy_named(self.groups@);
                    assert forall|g: int| 0 <= g < groups@.len() implies (
                    #[trigger] groups@[g]).files@.len() > 0 by {
                        assert(*groups@[g] == selection::targets(groups@)[g]);
                    }
                }
                list_files(&selection::compute_visible_entries(&groups, duplicates))
            },
            ScanMode::SimilarMedia => {
                let groups = refer_groups(&self.similar_groups);
                proof {
                    assert forall|g: int| 0 <= g < groups@.len() implies (
                    #[trigger] groups@[g]).files@.len() > 0 by {
                        assert(*groups@[g] == selection::targets(groups@)[g]);
                    }
                }
                list_media(&selection::compute_visible_media_entries(&groups, duplicates))
            },
            ScanMode::MatchingFiles => list_files(&refer_files(&self.matched_files)),
        }
    }

    /// Indices into `matched_files` in the current sort order.
    pub fn matched_order(&self) -> (r: Vec<usize>)
        ensures
            sorting::positions(r@) == (match self.sort {
                None => Seq::new(self.matched_files@.len(), |i: int| i),
                Some(s) => sorting::stable_order(
                    self.matched_files@.len(),
                    view_cache::file_ranking(self.matched_files@, s),
                ),
            }),
    {
        match self.sort {
            None => {
                let n: usize = self.matched_files.len();
                let mut order: Vec<usize> = Vec::new();
                let mut i: usize = 0;
                while i < n
                    invariant
                        i <= n,
                        order@.len() == i,
                        forall|k: int| 0 <= k < i ==> #[trigger] order@[k] == k,
                    decreases n - i,
                {
                    order.push(i);
                    i = i + 1;
                }
                assert(sorting::positions(order@) =~= Seq::new(n as nat, |i: int| i));
                order
            },
            Some(s) => {
                let files = refer_files(&self.matched_files);
                assert(files@.len() == selection::targets(files@).len());
                view_cache::sort_files(&files, s)
            },
        }
    }

    /// Says how many files are shown and selected, and how large they are.
    pub fn summarize_shown(&self) -> (r: ShownSummary)
        requires
            self.is_sound(),
        ensures
            r.count == self.visible_files().len(),
            r.size == measure::capped(size_of(self.visible_files())),
            r.selected_count == count_within(self.visible_files(), self.selection@),
            r.selected_size == measure::capped(
                size_within(self.visible_files(), self.selection@),
            ),
    {
        let shown = self.list_results(self.only_show_name_copies, self.only_show_duplicates);
        let mut size: u64 = 0;
        let mut selected_count: usize = 0;
        let mut selected_size: u64 = 0;
        let mut i: usize = 0;
        while i < shown.len()
            invariant
                i <= shown@.len(),
                selected_count <= i,
                size == measure::capped(size_of(shown@.take(i as int))),
                selected_count == count_within(shown@.take(i as int), self.selection@),
                selected_size == measure::capped(
                    size_within(shown@.take(i as int), self.selection@),
                ),
            decreases shown@.len() - i,
        {
            assert(shown@.take(i + 1).drop_last() =~= shown@.take(i as int));
            size = size.saturating_add(shown[i].1);
            if self.selection.contains(shown[i].0.as_str()) {
                selected_count = selected_count + 1;
                selected_size = selected_size.saturating_add(shown[i].1);
            }
            i = i + 1;
        }
        assert(shown@.take(shown@.len() as int) =~= shown@);
        ShownSummary { count: shown.len(), size, selected_count, selected_size }
    }
}

proof fn lemma_copy_named(groups: Seq<DupeGroup>)
    requires
        view_cache::have_originals(groups),
    ensures
        view_cache::have_originals(selection::copy_named(groups)),
    decreases groups.len(),
{
    if groups.len() > 0 {
        let less = groups.drop_last();
        assert forall|g: int| 0 <= g < less.len() implies (
        #[trigger] less[g]).files@.len() > 0 by {
            assert(less[g] == groups[g]);
        }
        lemma_copy_named(less);
        assert(groups[groups.len() - 1].files@.len() > 0);
    }
}

/// The paths of the rows.
pub open spec fn row_paths(rows: Seq<RowInfo>) -> Seq<Seq<char>> {
    rows.map_values(|r: RowInfo| r.path@)
}

fn paths_of_rows(rows: &Vec<RowInfo>) -> (r: Vec<String>)
    ensures
        text::texts(r@) == row_paths(rows@),
{
    let mut out: Vec<String> = Vec::new();
    let mut i: usize = 0;
    while i < rows.len()
        invariant
            i <= rows@.len(),
            text::texts(out@) =~= row_paths(rows@.take(i as int)),
        decreases rows@.len() - i,
    {
        let ghost before = text::texts(out@);
        out.push(rows[i].path.clone());
        assert(text::texts(out@) =~= before.push(rows@[i as int].path@));
        i = i + 1;
    }
    assert(rows@.take(rows@.len() as int) =~= rows@);
    out
}

fn paths_of_shown(shown: &Vec<Shown>) -> (r: Vec<String>)
    ensures
        text::texts(r@) == shown_paths(shown@),
{
    let mut out: Vec<String> = Vec::new();
    let mut i: usize = 0;
    while i < shown.len()
        invariant
            i <= shown@.len(),
            text::texts(out@) =~= shown_paths(shown@.take(i as int)),
        decreases shown@.len() - i,
    {
        let ghost before = text::texts(out@);
        out.push(shown[i].0.clone());
        assert(text::texts(out@) =~= before.push(shown@[i as int].0@));
        i = i + 1;
    }
    assert(shown@.take(shown@.len() as int) =~= shown@);
    out
}

/// Adds the paths to a set.
fn add_paths(set: &mut PathSet, list: Vec<String>)
    ensures
        final(set)@ == sets::with_paths(old(set)@, text::texts(list@)),
{
    let ghost all = list@;
    let ghost before = set@;
    for path in it: list
        invariant
            it.seq() == all,
            set@ == sets::with_paths(before, text::texts(all.take(it.index() as int))),
    {
        assert(text::texts(all.take(it.index() + 1)).drop_last() =~= text::texts(
            all.take(it.index() as int),
        ));
        set.insert(path);
    }
    assert(all.take(all.len() as int) =~= all);
}

/// The identities of paths.
pub open spec fn ids_of(list: Seq<Seq<char>>) -> Set<Seq<char>> {
    list.map_values(|p: Seq<char>| paths::path_id(p)).to_set()
}

/// Takes the paths out of a set.
fn drop_paths(set: &mut PathSet, list: &Vec<String>)
    ensures
        final(set)@ == old(set)@.remove_keys(ids_of(text::texts(list@))),
{
    let ghost before = set@;
    let ghost all = text::texts(list@);
    let mut i: usize = 0;
    assert(set@ =~= before.remove_keys(ids_of(all.take(0))));
    while i < list.len()
        invariant
            i <= list@.len(),
            all == text::texts(list@),
            set@ == before.remove_keys(ids_of(all.take(i as int))),
        decreases list@.len() - i,
    {
        let ghost known = all.take(i as int).map_values(|p: Seq<char>| paths::path_id(p));
        let ghost more = all.take(i + 1).map_values(|p: Seq<char>| paths::path_id(p));
        let ghost id = paths::path_id(all[i as int]);
        assert(more =~= known.push(id));
        assert forall|x: Seq<char>| more.contains(x) == (known.contains(x) || x == id) by {
            if known.contains(x) {
                let k = choose|k: int| 0 <= k < known.len() && known[k] == x;
                assert(more[k] == x);
            }
            assert(more[known.len() as int] == id);
        }
        set.remove(list[i].as_str());
        assert(set@ =~= before.remove_keys(ids_of(all.take(i + 1))));
        i = i + 1;
    }
    assert(all.take(all.len() as int) =~= all);
}

/// Whether this is what comes of deleting the selection: the confirm dialog
/// opens for the selected files that no running delete has queued, if there
/// are any.
pub open spec fn asks_to_delete(before: DupeApp, after: DupeApp) -> bool {
    let wanted = unqueued(before.delete_jobs@, before.selection.order());
    if wanted.len() == 0 {
        after == before
    } else {
        &&& after.delete_confirm matches Some(c)
        &&& text::texts(c.paths@) == wanted
        &&& c.total_size == measure::capped(
            size_within(before.results(false, false), sets::with_paths(Map::empty(), wanted)),
        )
        &&& !c.permanent
        &&& after == (DupeApp { delete_confirm: after.delete_confirm, ..before })
    }
}

/// The keys that were pressed on the keyboard.
#[derive(Clone, Copy, Debug, PartialEq, Eq, Structural)]
pub struct Keys {
    /// Whether a text field takes what is typed.
    pub typing: bool,
    pub ctrl_a: bool,
    pub escape: bool,
    pub delete: bool,
}

impl DupeApp {
    /// The paths that are listed.
    pub open spec fn listed_paths(self) -> Seq<Seq<char>> {
        if self.active_mode is ExactContent {
            row_paths(self.exact_rows_cache.rows@)
        } else {
            shown_paths(self.visible_files())
        }
    }

    /// Selects everything that is listed and nothing else.
    pub fn select_ctrl_a(&mut self)
        requires
            old(self).is_sound(),
        ensures
            final(self).is_sound(),
            final(self).selection@ == sets::with_paths(Map::empty(), old(self).listed_paths()),
            *final(self) == (DupeApp { selection: final(self).selection, ..*old(self) }),
    {
        let list: Vec<String> = if self.active_mode == ScanMode::ExactContent {
            paths_of_rows(&self.exact_rows_cache.rows)
        } else {
            let shown = self.list_results(self.only_show_name_copies, self.only_show_duplicates);
            paths_of_shown(&shown)
        };
        self.selection = PathSet::from_paths(&list);
    }

    /// Adds everything that is shown to the selection.
    pub fn select_all_shown(&mut self)
        requires
            old(self).is_sound(),
        ensures
            final(self).is_sound(),
            final(self).selection@ == sets::with_paths(
                old(self).selection@,
                shown_paths(old(self).visible_files()),
            ),
            *final(self) == (DupeApp { selection: final(self).selection, ..*old(self) }),
    {
        let shown = self.list_results(self.only_show_name_copies, self.only_show_duplicates);
        let list = paths_of_shown(&shown);
        add_paths(&mut self.selection, list);
    }

    /// Selects a file, or deselects it if it's selected.
    pub fn toggle_selected(&mut self, path: String)
        ensures
            old(self).is_sound() ==> final(self).is_sound(),
            final(self).selection@ == (if old(self).selection@.contains_key(
                paths::path_id(path@),
            ) {
                old(self).selection@.remove(paths::path_id(path@))
            } else {
                sets::with_path(old(self).selection@, path@)
            }),
            *final(self) == (DupeApp { selection: final(self).selection, ..*old(self) }),
    {
        if self.selection.contains(path.as_str()) {
            self.selection.remove(path.as_str());
        } else {
            self.selection.insert(path);
        }
    }

    /// For each group, finds the file matching `criterion` and adds it to the
    /// selection, or, with `invert`, adds every *other* file in the group
    /// instead (e.g. "select everything except the oldest", to keep the
    /// oldest and delete the rest).
    pub fn select_by_criterion(&mut self, criterion: SelectCriterion, invert: bool)
        ensures
            old(self).is_sound() ==> final(self).is_sound(),
            final(self).selection@ == criterion_selection(
                old(self).selection@,
                match old(self).active_mode {
                    ScanMode::ExactContent => timed_groups(old(self).groups@),
                    ScanMode::SimilarMedia => timed_similar_groups(old(self).similar_groups@),
                    ScanMode::MatchingFiles => seq![],
                },
                criterion,
                invert,
            ),
            *final(self) == (DupeApp { selection: final(self).selection, ..*old(self) }),
    {
        match self.active_mode {
            ScanMode::ExactContent => {
                select_in_groups(&self.groups, criterion, invert, &mut self.selection);
            },
            ScanMode::SimilarMedia => {
                select_in_similar_groups(
                    &self.similar_groups,
                    criterion,
                    invert,
                    &mut self.selection,
                );
            },
            ScanMode::MatchingFiles => {},
        }
    }

    /// Whether `path` is already queued in a running delete job.
    pub fn is_queued_for_delete(&self, path: &str) -> (r: bool)
        ensures
            r == queues(self.delete_jobs@, path@),
    {
        let mut j: usize = 0;
        while j < self.delete_jobs.len()
            invariant
                j <= self.delete_jobs@.len(),
                forall|k: int|
                    0 <= k < j ==> !(#[trigger] self.delete_jobs@[k]).queued@.contains_key(
                        paths::path_id(path@),
                    ),
            decreases self.delete_jobs@.len() - j,
        {
            if self.delete_jobs[j].queued.contains(path) {
                return true;
            }
            j = j + 1;
        }
        false
    }

    /// Opens the confirm dialog for the current selection. Files already
    /// queued in a running delete are left out, so starting another delete
    /// while one is in progress never processes a file twice.
    pub fn delete_selected(&mut self)
        requires
            old(self).is_sound(),
        ensures
            final(self).is_sound(),
            asks_to_delete(*old(self), *final(self)),
    {
        let selected: &Vec<String> = self.selection.paths();
        let ghost all = text::texts(selected@);
        let mut list: Vec<String> = Vec::new();
        let mut i: usize = 0;
        while i < selected.len()
            invariant
                i <= selected@.len(),
                all == text::texts(selected@),
                text::texts(list@) =~= unqueued(self.delete_jobs@, all.take(i as int)),
            decreases selected@.len() - i,
        {
            assert(all.take(i + 1).drop_last() =~= all.take(i as int));
            assert(all[i as int] == selected@[i as int]@);
            if !self.is_queued_for_delete(selected[i].as_str()) {
                let ghost before = text::texts(list@);
                list.push(selected[i].clone());
                assert(text::texts(list@) =~= before.push(selected@[i as int]@));
            }
            i = i + 1;
        }
        assert(all.take(all.len() as int) =~= all);
        assert(list@.len() == text::texts(list@).len());
        if list.len() == 0 {
            return;
        }
        let wanted: PathSet = PathSet::from_paths(&list);
        let shown = self.list_results(false, false);
        let mut total_size: u64 = 0;
        let mut i: usize = 0;
        while i < shown.len()
            invariant
                i <= shown@.len(),
                total_size == measure::capped(size_within(shown@.take(i as int), wanted@)),
            decreases shown@.len() - i,
        {
            assert(shown@.take(i + 1).drop_last() =~= shown@.take(i as int));
            if wanted.contains(shown[i].0.as_str()) {
                total_size = total_size.saturating_add(shown[i].1);
            }
            i = i + 1;
        }
        assert(shown@.take(shown@.len() as int) =~= shown@);
        proof {
            lemma_unqueued(self.delete_jobs@, all);
        }
        self.delete_confirm = Some(
            DeleteConfirmState { paths: list, total_size, permanent: false },
        );
    }

    fn clear_selection(&mut self)
        requires
            old(self).is_sound(),
        ensures
            final(self).is_sound(),
            final(self).selection@ == Map::<Seq<char>, Seq<char>>::empty(),
            *final(self) == (DupeApp { selection: final(self).selection, ..*old(self) }),
    {
        self.selection.clear();
    }

    fn select_by_keys(&mut self, ctrl_a: bool, escape: bool)
        requires
            old(self).is_sound(),
        ensures
            final(self).is_sound(),
            final(self).selection@ == old(self).keyed_selection(ctrl_a, escape),
            *final(self) == (DupeApp { selection: final(self).selection, ..*old(self) }),
    {
        if escape {
            self.clear_selection();
        } else if ctrl_a {
            self.select_ctrl_a();
        }
    }

    /// What is selected after Ctrl+A or Escape, if they were pressed.
    pub open spec fn keyed_selection(self, ctrl_a: bool, escape: bool) -> Map<
        Seq<char>,
        Seq<char>,
    > {
        if escape {
            Map::empty()
        } else if ctrl_a {
            sets::with_paths(Map::empty(), self.listed_paths())
        } else {
            self.selection@
        }
    }

    /// Carries out what keys mean while the duplicates are showing: Ctrl+A
    /// selects everything that is listed, Escape nothing, Delete asks about the
    /// selection.
    pub fn take_keys(&mut self, keys: Keys)
        requires
            old(self).is_sound(),
        ensures
            final(self).is_sound(),
            keys.typing || !(old(self).tab is Scan) ==> *final(self) == *old(self),
            !keys.typing && old(self).tab is Scan ==> {
                &&& final(self).selection@ == old(self).keyed_selection(keys.ctrl_a, keys.escape)
                &&& if keys.delete {
                    asks_to_delete(
                        (DupeApp { selection: final(self).selection, ..*old(self) }),
                        *final(self),
                    )
                } else {
                    *final(self) == (DupeApp { selection: final(self).selection, ..*old(self) })
                }
            },
    {
        if keys.typing || self.tab != AppTab::Scan {
            return;
        }
        self.select_by_keys(keys.ctrl_a, keys.escape);
        if keys.delete {
            self.delete_selected();
        }
    }

    /// Whether anything is being deleted.
    pub fn is_deleting(&self) -> (r: bool)
        ensures
            r == (self.delete_jobs@.len() > 0),
    {
        self.delete_jobs.len() > 0
    }
}

fn select_in_groups(
    groups: &Vec<DupeGroup>,
    criterion: SelectCriterion,
    invert: bool,
    selection: &mut PathSet,
)
    ensures
        final(selection)@ == criterion_selection(
            old(selection)@,
            timed_groups(groups@),
            criterion,
            invert,
        ),
{
    let ghost before = selection@;
    let ghost all = timed_groups(groups@);
    let mut g: usize = 0;
    while g < groups.len()
        invariant
            g <= groups@.len(),
            all == timed_groups(groups@),
            selection@ == criterion_selection(before, all.take(g as int), criterion, invert),
        decreases groups@.len() - g,
    {
        assert(all.take(g + 1).drop_last() =~= all.take(g as int));
        let files = time_files(&groups[g].files);
        assert(all[g as int] == files@);
        apply_criterion_selection(&files, criterion, invert, selection);
        g = g + 1;
    }
    assert(all.take(all.len() as int) =~= all);
}

fn select_in_similar_groups(
    groups: &Vec<SimilarGroup>,
    criterion: SelectCriterion,
    invert: bool,
    selection: &mut PathSet,
)
    ensures
        final(selection)@ == criterion_selection(
            old(selection)@,
            timed_similar_groups(groups@),
            criterion,
            invert,
        ),
{
    let ghost before = selection@;
    let ghost all = timed_similar_groups(groups@);
    let mut g: usize = 0;
    while g < groups.len()
        invariant
            g <= groups@.len(),
            all == timed_similar_groups(groups@),
            selection@ == criterion_selection(before, all.take(g as int), criterion, invert),
        decreases groups@.len() - g,
    {
        assert(all.take(g + 1).drop_last() =~= all.take(g as int));
        let files = time_media(&groups[g].files);
        assert(all[g as int] == files@);
        apply_criterion_selection(&files, criterion, invert, selection);
        g = g + 1;
    }
    assert(all.take(all.len() as int) =~= all);
}

/// Files that are to be deleted.
#[derive(Debug, PartialEq)]
pub struct DeleteRequest {
    pub id: u64,
    pub paths: Vec<String>,
    pub permanent: bool,
}

/// The files that were not deleted.
pub open spec fn remaining_files(
    files: Seq<FileEntry>,
    deleted: Map<Seq<char>, Seq<char>>,
) -> Seq<FileEntry>
    decreases files.len(),
{
    if files.len() == 0 {
        seq![]
    } else if deleted.contains_key(paths::path_id(files.last().path@)) {
        remaining_files(files.drop_last(), deleted)
    } else {
        remaining_files(files.drop_last(), deleted).push(files.last())
    }
}

/// The pictures and videos that were not deleted.
pub open spec fn remaining_media(
    files: Seq<MediaEntry>,
    deleted: Map<Seq<char>, Seq<char>>,
) -> Seq<MediaEntry>
    decreases files.len(),
{
    if files.len() == 0 {
        seq![]
    } else if deleted.contains_key(paths::path_id(files.last().path@)) {
        remaining_media(files.drop_last(), deleted)
    } else {
        remaining_media(files.drop_last(), deleted).push(files.last())
    }
}

/// The groups by their hashes and files.
pub open spec fn group_values(groups: Seq<DupeGroup>) -> Seq<([u8; 32], Seq<FileEntry>)> {
    groups.map_values(|g: DupeGroup| (g.hash, g.files@))
}

/// The groups without the deleted files, as far as they still hold
/// duplicates.
pub open spec fn pruned_groups(
    groups: Seq<DupeGroup>,
    deleted: Map<Seq<char>, Seq<char>>,
) -> Seq<([u8; 32], Seq<FileEntry>)>
    decreases groups.len(),
{
    if groups.len() == 0 {
        seq![]
    } else {
        let before = pruned_groups(groups.drop_last(), deleted);
        let files = remaining_files(groups.last().files@, deleted);
        if files.len() > 1 {
            before.push((groups.last().hash, files))
        } else {
            before
        }
    }
}

/// The groups of pictures and videos without the deleted files, as far as they
/// still hold duplicates.
pub open spec fn pruned_similar_groups(
    groups: Seq<SimilarGroup>,
    deleted: Map<Seq<char>, Seq<char>>,
) -> Seq<Seq<MediaEntry>>
    decreases groups.len(),
{
    if groups.len() == 0 {
        seq![]
    } else {
        let before = pruned_similar_groups(groups.drop_last(), deleted);
        let files = remaining_media(groups.last().files@, deleted);
        if files.len() > 1 {
            before.push(files)
        } else {
            before
        }
    }
}

fn keep_files(files: Vec<FileEntry>, deleted: &PathSet) -> (r: Vec<FileEntry>)
    ensures
        r@ == remaining_files(files@, deleted@),
{
    let ghost all = files@;
    let mut out: Vec<FileEntry> = Vec::new();
    for f in it: files
        invariant
            it.seq() == all,
            out@ == remaining_files(all.take(it.index() as int), deleted@),
    {
        assert(all.take(it.index() + 1).drop_last() =~= all.take(it.index() as int));
        if !deleted.contains(f.path.as_str()) {
            out.push(f);
        }
    }
    assert(all.take(all.len() as int) =~= all);
    out
}

fn keep_media(files: Vec<MediaEntry>, deleted: &PathSet) -> (r: Vec<MediaEntry>)
    ensures
        r@ == remaining_media(files@, deleted@),
{
    let ghost all = files@;
    let mut out: Vec<MediaEntry> = Vec::new();
    for f in it: files
        invariant
            it.seq() == all,
            out@ == remaining_media(all.take(it.index() as int), deleted@),
    {
        assert(all.take(it.index() + 1).drop_last() =~= all.take(it.index() as int));
        if !deleted.contains(f.path.as_str()) {
            out.push(f);
        }
    }
    assert(all.take(all.len() as int) =~= all);
    out
}

fn prune_groups(groups: Vec<DupeGroup>, deleted: &PathSet) -> (r: Vec<DupeGroup>)
    ensures
        group_values(r@) == pruned_groups(groups@, deleted@),
        view_cache::have_originals(r@),
{
    let ghost all = groups@;
    let mut out: Vec<DupeGroup> = Vec::new();
    for g in it: groups
        invariant
            it.seq() == all,
            group_values(out@) =~= pruned_groups(all.take(it.index() as int), deleted@),
            view_cache::have_originals(out@),
    {
        assert(all.take(it.index() + 1).drop_last() =~= all.take(it.index() as int));
        let hash: [u8; 32] = g.hash;
        let files = keep_files(g.files, deleted);
        if files.len() > 1 {
            let ghost before = group_values(out@);
            out.push(DupeGroup { hash, files });
            assert(group_values(out@) =~= before.push((hash, files@)));
        }
    }
    assert(all.take(all.len() as int) =~= all);
    out
}

fn prune_similar_groups(groups: Vec<SimilarGroup>, deleted: &PathSet) -> (r: Vec<SimilarGroup>)
    ensures
        model::media_lists(r@) == pruned_similar_groups(groups@, deleted@),
        have_media(r@),
{
    let ghost all = groups@;
    let mut out: Vec<SimilarGroup> = Vec::new();
    for g in it: groups
        invariant
            it.seq() == all,
            model::media_lists(out@) =~= pruned_similar_groups(
                all.take(it.index() as int),
                deleted@,
            ),
            have_media(out@),
    {
        assert(all.take(it.index() + 1).drop_last() =~= all.take(it.index() as int));
        let files = keep_media(g.files, deleted);
        if files.len() > 1 {
            let ghost before = model::media_lists(out@);
            out.push(SimilarGroup { files });
            assert(model::media_lists(out@) =~= before.push(files@));
        }
    }
    assert(all.take(all.len() as int) =~= all);
    out
}

/// What the state says once a delete is over.
pub open spec fn delete_status(
    cancelled: bool,
    permanent: bool,
    deleted: nat,
    skipped: nat,
) -> Seq<char> {
    (if cancelled {
        "Delete cancelled. "@
    } else {
        ""@
    }) + (if permanent {
        "Permanently deleted "@
    } else {
        "Moved "@
    }) + text::decimal(deleted) + " file(s)"@ + (if permanent {
        ""@
    } else {
        " to the trash"@
    }) + (if skipped == 0 {
        "."@
    } else {
        "; skipped "@ + text::decimal(skipped) + " (missing or failed)."@
    })
}

fn describe_delete(cancelled: bool, permanent: bool, deleted: usize, skipped: usize) -> (r: String)
    ensures
        r@ == delete_status(cancelled, permanent, deleted as nat, skipped as nat),
{
    let prefix: &str = if cancelled {
        "Delete cancelled. "
    } else {
        ""
    };
    let action: &str = if permanent {
        "Permanently deleted "
    } else {
        "Moved "
    };
    let destination: &str = if permanent {
        ""
    } else {
        " to the trash"
    };
    let end: String = if skipped == 0 {
        ".".to_owned()
    } else {
        "; skipped ".to_owned().concat(text::decimal_text(skipped as u128).as_str()).concat(
            " (missing or failed).",
        )
    };
    prefix.to_owned().concat(action).concat(text::decimal_text(deleted as u128).as_str()).concat(
        " file(s)",
    ).concat(destination).concat(end.as_str())
}

impl DeleteJob {
    /// The job once one more file was tried.
    pub open spec fn after_file(self, path: Seq<char>, deleted: bool, now: DeleteJob) -> bool {
        &&& now.done == control::one_more(self.done)
        &&& if deleted {
            now.deleted_paths@ == sets::with_path(self.deleted_paths@, path) && now.skipped
                == self.skipped
        } else {
            now.deleted_paths == self.deleted_paths && now.skipped == control::one_more(self.skipped)
        }
        &&& now == (DeleteJob {
            done: now.done,
            deleted_paths: now.deleted_paths,
            skipped: now.skipped,
            ..self
        })
    }

    fn note(&mut self, event: DeleteEvent)
        ensures
            match event {
                DeleteEvent::FileStarted { path } => *final(self) == (DeleteJob {
                    current: Some(path),
                    ..*old(self)
                }),
                DeleteEvent::FileDone { path, deleted } => old(self).after_file(
                    path@,
                    deleted,
                    *final(self),
                ),
                DeleteEvent::Finished => *final(self) == *old(self),
            },
    {
        match event {
            DeleteEvent::FileStarted { path } => {
                self.current = Some(path);
            },
            DeleteEvent::FileDone { path, deleted } => {
                self.done = self.done.saturating_add(1);
                if deleted {
                    self.deleted_paths.insert(path);
                } else {
                    self.skipped = self.skipped.saturating_add(1);
                }
            },
            DeleteEvent::Finished => {},
        }
    }
}

/// The position of the delete job with this number.
pub open spec fn job_at(jobs: Seq<DeleteJob>, id: u64) -> Option<int>
    decreases jobs.len(),
{
    if jobs.len() == 0 {
        None
    } else if jobs.last().id == id {
        Some(jobs.len() - 1)
    } else {
        job_at(jobs.drop_last(), id)
    }
}

proof fn lemma_job_at(jobs: Seq<DeleteJob>, id: u64)
    ensures
        job_at(jobs, id) matches Some(j) ==> 0 <= j < jobs.len() && jobs[j].id == id,
        job_at(jobs, id) is None ==> forall|j: int|
            0 <= j < jobs.len() ==> (#[trigger] jobs[j]).id != id,
    decreases jobs.len(),
{
    if jobs.len() > 0 {
        lemma_job_at(jobs.drop_last(), id);
        assert forall|j: int| 0 <= j < jobs.len() && job_at(jobs, id) is None implies (
        #[trigger] jobs[j]).id != id by {
            if j < jobs.len() - 1 {
                assert(jobs.drop_last()[j] == jobs[j]);
            }
        }
    }
}

impl DupeApp {
    /// Has the confirmed selection moved to the trash (or, if the dialog's
    /// permanent checkbox was ticked, removed outright), each file after
    /// checking that it still exists, since it may have vanished or changed
    /// since the scan. The files leave the selection right away so the user
    /// can go on to pick and delete others while this job runs.
    pub fn confirm_delete(&mut self) -> (r: Option<DeleteRequest>)
        requires
            old(self).is_sound(),
            old(self).next_delete_job_id < u64::MAX,
        ensures
            final(self).is_sound(),
            match old(self).delete_confirm {
                None => r is None && *final(self) == *old(self),
                Some(c) => {
                    &&& r matches Some(q)
                    &&& q.id == old(self).next_delete_job_id
                    &&& q.paths == c.paths
                    &&& q.permanent == c.permanent
                    &&& final(self).delete_confirm is None
                    &&& final(self).next_delete_job_id == old(self).next_delete_job_id + 1
                    &&& final(self).selection@ == old(self).selection@.remove_keys(
                        ids_of(text::texts(c.paths@)),
                    )
                    &&& final(self).delete_jobs@.len() == old(self).delete_jobs@.len() + 1
                    &&& final(self).delete_jobs@.drop_last() == old(self).delete_jobs@
                    &&& is_new_job(final(self).delete_jobs@.last(), q)
                    &&& *final(self) == (DupeApp {
                        delete_confirm: final(self).delete_confirm,
                        next_delete_job_id: final(self).next_delete_job_id,
                        selection: final(self).selection,
                        delete_jobs: final(self).delete_jobs,
                        ..*old(self)
                    })
                },
            },
    {
        let confirm: DeleteConfirmState = match self.delete_confirm.take() {
            Some(c) => c,
            None => return None,
        };
        let queued: PathSet = PathSet::from_paths(&confirm.paths);
        drop_paths(&mut self.selection, &confirm.paths);
        let id: u64 = self.next_delete_job_id;
        let total: usize = confirm.paths.len();
        self.next_delete_job_id = id + 1;
        let job = DeleteJob {
            id,
            control: JobControl::default(),
            queued,
            total,
            done: 0,
            deleted_paths: PathSet::new(),
            skipped: 0,
            permanent: confirm.permanent,
            clock: ActiveClock::start(),
            current: None,
        };
        let ghost before = self.delete_jobs@;
        proof {
            lemma_new_job_queues_apart(before, text::texts(confirm.paths@), job);
        }
        self.delete_jobs.push(job);
        assert(self.delete_jobs@.drop_last() =~= before);
        Some(DeleteRequest { id, paths: confirm.paths, permanent: confirm.permanent })
    }
}

/// Whether the job has just been started.
pub open spec fn is_new_job(job: DeleteJob, request: DeleteRequest) -> bool {
    &&& job.id == request.id
    &&& !job.control.cancelled && !job.control.paused
    &&& job.queued@ == sets::with_paths(Map::empty(), text::texts(request.paths@))
    &&& job.total == request.paths@.len()
    &&& job.done == 0
    &&& job.deleted_paths@ == Map::<Seq<char>, Seq<char>>::empty()
    &&& job.skipped == 0
    &&& job.permanent == request.permanent
    &&& job.clock.pause_start() is None && job.clock.pauses() == 0
    &&& job.current is None
}

proof fn lemma_new_job_queues_apart(jobs: Seq<DeleteJob>, list: Seq<Seq<char>>, job: DeleteJob)
    requires
        queue_once(jobs),
        none_queued(jobs, list),
        job.queued@ == sets::with_paths(Map::empty(), list),
    ensures
        queue_once(jobs.push(job)),
{
    let all = jobs.push(job);
    sets::lemma_with_paths(Map::empty(), list);
    assert forall|i: int, j: int, id: Seq<char>|
        0 <= i < j < all.len() && #[trigger] all[i].queued@.contains_key(id) implies !(
    #[trigger] all[j].queued@.contains_key(id)) by {
        if j == jobs.len() && job.queued@.contains_key(id) {
            assert(sets::path_ids(list).contains(id));
            let k = choose|k: int| 0 <= k < sets::path_ids(list).len() && sets::path_ids(list)[k] == id;
            assert(paths::path_id(list[k]) == id);
            assert(!queues(jobs, list[k]));
            assert(jobs[i].queued@.contains_key(paths::path_id(list[k])));
        } else if j < jobs.len() {
            assert(jobs[i].queued@.contains_key(id));
        }
    }
}

impl DupeApp {
    /// What is left of the results and the selection once a delete is over,
    /// and what is said of it.
    pub open spec fn is_pruned(self, before: DupeApp, job: DeleteJob) -> bool {
        let deleted = job.deleted_paths@;
        &&& group_values(self.groups@) == pruned_groups(before.groups@, deleted)
        &&& model::media_lists(self.similar_groups@) == pruned_similar_groups(
            before.similar_groups@,
            deleted,
        )
        &&& self.matched_files@ == remaining_files(before.matched_files@, deleted)
        &&& self.groups_generation != before.groups_generation
        &&& self.selection@ == before.selection@.remove_keys(deleted.dom())
        &&& self.status_message matches Some(m)
        &&& m@ == delete_status(
            job.control.cancelled,
            job.permanent,
            deleted.dom().len(),
            job.skipped as nat,
        )
        &&& self == (DupeApp {
            groups: self.groups,
            similar_groups: self.similar_groups,
            matched_files: self.matched_files,
            groups_generation: self.groups_generation,
            exact_rows_cache: self.exact_rows_cache,
            selection: self.selection,
            status_message: self.status_message,
            ..before
        })
    }

    /// Prunes a finished job's deleted files from the results and the
    /// selection.
    fn finish_delete_job(&mut self, job: DeleteJob) -> (r: Option<Sound>)
        requires
            old(self).is_sound(),
        ensures
            final(self).is_sound(),
            final(self).is_pruned(*old(self), job),
            r == (if old(self).play_sounds {
                Some(Sound::DeleteFinished)
            } else {
                None
            }),
    {
        self.touch_groups();
        let mut groups: Vec<DupeGroup> = Vec::new();
        std::mem::swap(&mut groups, &mut self.groups);
        self.groups = prune_groups(groups, &job.deleted_paths);
        let mut similar: Vec<SimilarGroup> = Vec::new();
        std::mem::swap(&mut similar, &mut self.similar_groups);
        self.similar_groups = prune_similar_groups(similar, &job.deleted_paths);
        let mut matched: Vec<FileEntry> = Vec::new();
        std::mem::swap(&mut matched, &mut self.matched_files);
        self.matched_files = keep_files(matched, &job.deleted_paths);
        drop_set(&mut self.selection, &job.deleted_paths);
        self.status_message = Some(
            describe_delete(
                job.control.is_cancelled(),
                job.permanent,
                job.deleted_paths.len(),
                job.skipped,
            ),
        );
        if self.play_sounds {
            Some(Sound::DeleteFinished)
        } else {
            None
        }
    }

    /// Where the delete job with this number is.
    fn find_job(&self, id: u64) -> (r: Option<usize>)
        ensures
            match job_at(self.delete_jobs@, id) {
                Some(j) => r matches Some(i) && i == j && i < self.delete_jobs@.len(),
                None => r is None,
            },
    {
        let jobs: &Vec<DeleteJob> = &self.delete_jobs;
        let mut i: usize = jobs.len();
        assert(jobs@.take(jobs@.len() as int) =~= jobs@);
        while i > 0
            invariant
                i <= jobs@.len(),
                jobs == self.delete_jobs,
                job_at(jobs@, id) == job_at(jobs@.take(i as int), id),
            decreases i,
        {
            assert(jobs@.take(i as int).drop_last() =~= jobs@.take(i - 1));
            i = i - 1;
            if jobs[i].id == id {
                return Some(i);
            }
        }
        None
    }

    /// Takes what the delete job with this number reports. Gives the sound to
    /// be played, if any.
    pub fn take_delete_event(&mut self, id: u64, event: DeleteEvent) -> (r: Option<Sound>)
        requires
            old(self).is_sound(),
        ensures
            final(self).is_sound(),
            match job_at(old(self).delete_jobs@, id) {
                None => r is None && *final(self) == *old(self),
                Some(j) => {
                    let job = old(self).delete_jobs@[j];
                    match event {
                        DeleteEvent::Finished => {
                            &&& final(self).delete_jobs@ == old(self).delete_jobs@.remove(j)
                            &&& final(self).is_pruned(
                                (DupeApp { delete_jobs: final(self).delete_jobs, ..*old(self) }),
                                job,
                            )
                            &&& r == (if old(self).play_sounds {
                                Some(Sound::DeleteFinished)
                            } else {
                                None
                            })
                        },
                        _ => {
                            let now = final(self).delete_jobs@[j];
                            &&& r is None
                            &&& final(self).delete_jobs@ == old(self).delete_jobs@.update(j, now)
                            &&& event matches DeleteEvent::FileStarted { path } ==> now == (
                            DeleteJob { current: Some(path), ..job })
                            &&& event matches DeleteEvent::FileDone { path, deleted }
                                ==> job.after_file(path@, deleted, now)
                            &&& *final(self) == (DupeApp {
                                delete_jobs: final(self).delete_jobs,
                                ..*old(self)
                            })
                        },
                    }
                },
            },
    {
        let j: usize = match self.find_job(id) {
            Some(j) => j,
            None => return None,
        };
        let ghost jobs = self.delete_jobs@;
        match event {
            DeleteEvent::Finished => {
                let job: DeleteJob = self.delete_jobs.remove(j);
                proof {
                    lemma_fewer_jobs(jobs, j as int, self.next_delete_job_id);
                    if self.delete_confirm is Some {
                        lemma_none_queued_less(
                            jobs,
                            j as int,
                            text::texts(self.delete_confirm->0.paths@),
                        );
                    }
                }
                self.finish_delete_job(job)
            },
            _ => {
                self.delete_jobs[j].note(event);
                proof {
                    let now = self.delete_jobs@[j as int];
                    assert(self.delete_jobs@ =~= jobs.update(j as int, now));
                    lemma_same_queue(jobs, j as int, now, self.next_delete_job_id);
                    if self.delete_confirm is Some {
                        lemma_none_queued_same(
                            jobs,
                            j as int,
                            now,
                            text::texts(self.delete_confirm->0.paths@),
                        );
                    }
                }
                None
            },
        }
    }
}

/// Takes the paths of one set out of another.
fn drop_set(set: &mut PathSet, other: &PathSet)
    ensures
        final(set)@ == old(set)@.remove_keys(other@.dom()),
{
    let list: &Vec<String> = other.paths();
    drop_paths(set, list);
    proof {
        let all = text::texts(list@);
        let ids = all.map_values(|p: Seq<char>| paths::path_id(p));
        assert forall|id: Seq<char>| ids_of(all).contains(id) == other@.dom().contains(id) by {
            if ids.contains(id) {
                let k = choose|k: int| 0 <= k < ids.len() && ids[k] == id;
                assert(other@.contains_key(paths::path_id(all[k])));
            }
            if other@.contains_key(id) {
                let i = choose|i: int| 0 <= i < list@.len() && #[trigger] all[i] == other@[id];
                assert(paths::path_id(other@[id]) == id);
                assert(ids[i] == id);
            }
        }
        assert(ids_of(all) =~= other@.dom());
    }
}

proof fn lemma_fewer_jobs(jobs: Seq<DeleteJob>, j: int, next: u64)
    requires
        0 <= j < jobs.len(),
        queue_once(jobs),
        have_ids(jobs, next),
    ensures
        queue_once(jobs.remove(j)),
        have_ids(jobs.remove(j), next),
{
    let less = jobs.remove(j);
    assert forall|a: int, b: int, id: Seq<char>|
        0 <= a < b < less.len() && #[trigger] less[a].queued@.contains_key(id) implies !(
    #[trigger] less[b].queued@.contains_key(id)) by {
        let x = if a < j {
            a
        } else {
            a + 1
        };
        let y = if b < j {
            b
        } else {
            b + 1
        };
        assert(jobs[x].queued@.contains_key(id));
        assert(!jobs[y].queued@.contains_key(id));
    }
    assert forall|a: int| 0 <= a < less.len() implies (#[trigger] less[a]).id < next by {
        let x = if a < j {
            a
        } else {
            a + 1
        };
        assert(jobs[x].id < next);
    }
    assert forall|a: int, b: int| 0 <= a < b < less.len() implies (#[trigger] less[a]).id != (
    #[trigger] less[b]).id by {
        let x = if a < j {
            a
        } else {
            a + 1
        };
        let y = if b < j {
            b
        } else {
            b + 1
        };
        assert(jobs[x].id != jobs[y].id);
    }
}

proof fn lemma_none_queued_less(jobs: Seq<DeleteJob>, j: int, list: Seq<Seq<char>>)
    requires
        0 <= j < jobs.len(),
        none_queued(jobs, list),
    ensures
        none_queued(jobs.remove(j), list),
{
    let less = jobs.remove(j);
    assert forall|k: int| 0 <= k < list.len() implies !queues(less, #[trigger] list[k]) by {
        assert(!queues(jobs, list[k]));
        assert forall|a: int| 0 <= a < less.len() implies !(
        #[trigger] less[a]).queued@.contains_key(paths::path_id(list[k])) by {
            let x = if a < j {
                a
            } else {
                a + 1
            };
            assert(!jobs[x].queued@.contains_key(paths::path_id(list[k])));
        }
    }
}

proof fn lemma_same_queue(jobs: Seq<DeleteJob>, j: int, now: DeleteJob, next: u64)
    requires
        0 <= j < jobs.len(),
        queue_once(jobs),
        have_ids(jobs, next),
        now.queued == jobs[j].queued,
        now.id == jobs[j].id,
    ensures
        queue_once(jobs.update(j, now)),
        have_ids(jobs.update(j, now), next),
{
    let all = jobs.update(j, now);
    assert forall|a: int, b: int, id: Seq<char>|
        0 <= a < b < all.len() && #[trigger] all[a].queued@.contains_key(id) implies !(
    #[trigger] all[b].queued@.contains_key(id)) by {
        assert(all[a].queued == jobs[a].queued && all[b].queued == jobs[b].queued);
        assert(jobs[a].queued@.contains_key(id));
        assert(!jobs[b].queued@.contains_key(id));
    }
    assert forall|a: int| 0 <= a < all.len() implies (#[trigger] all[a]).id < next by {
        assert(all[a].id == jobs[a].id);
        assert(jobs[a].id < next);
    }
    assert forall|a: int, b: int| 0 <= a < b < all.len() implies (#[trigger] all[a]).id != (
    #[trigger] all[b]).id by {
        assert(all[a].id == jobs[a].id && all[b].id == jobs[b].id);
        assert(jobs[a].id != jobs[b].id);
    }
}

proof fn lemma_none_queued_same(
    jobs: Seq<DeleteJob>,
    j: int,
    now: DeleteJob,
    list: Seq<Seq<char>>,
)
    requires
        0 <= j < jobs.len(),
        none_queued(jobs, list),
        now.queued == jobs[j].queued,
    ensures
        none_queued(jobs.update(j, now), list),
{
    let all = jobs.update(j, now);
    assert forall|k: int| 0 <= k < list.len() implies !queues(all, #[trigger] list[k]) by {
        assert(!queues(jobs, list[k]));
        assert forall|a: int| 0 <= a < all.len() implies !(
        #[trigger] all[a]).queued@.contains_key(paths::path_id(list[k])) by {
            assert(all[a].queued == jobs[a].queued);
            assert(!jobs[a].queued@.contains_key(paths::path_id(list[k])));
        }
    }
}

/// One text or none.
pub open spec fn named_if(holds: bool, name: Seq<char>) -> Seq<Seq<char>> {
    if holds {
        seq![name]
    } else {
        seq![]
    }
}

/// The texts of the list.
pub open spec fn names_of(list: Seq<&'static str>) -> Seq<Seq<char>> {
    list.map_values(|t: &'static str| t@)
}

fn push_if(list: &mut Vec<&'static str>, holds: bool, name: &'static str)
    ensures
        names_of(final(list)@) == names_of(old(list)@) + named_if(holds, name@),
{
    if holds {
        list.push(name);
    }
    assert(names_of(list@) =~= names_of(old(list)@) + named_if(holds, name@));
}

/// Whether a scan, if it is running, has been cancelled and is otherwise as
/// before.
pub open spec fn stops_scan(a: ScanState, b: ScanState) -> bool {
    match a {
        ScanState::Running(x) => b matches ScanState::Running(y) && y.control.cancelled
            && y.control.paused == x.control.paused && y == (ScanRun { control: y.control, ..x }),
        _ => b == a,
    }
}

/// Whether indexing, if it is running, has been cancelled and is otherwise as
/// before.
pub open spec fn stops_indexing(a: IndexState, b: IndexState) -> bool {
    match a {
        IndexState::Running { control, scanned, total } => b matches IndexState::Running {
            control: c,
            scanned: s,
            total: t,
        } && c.cancelled && c.paused == control.paused && s == scanned && t == total,
        IndexState::Idle => b is Idle,
    }
}

/// Whether sizing up, if it is running, has been cancelled and is otherwise as
/// before.
pub open spec fn stops_measuring(a: MeasureState, b: MeasureState) -> bool {
    match a {
        MeasureState::Running { control, done, total } => b matches MeasureState::Running {
            control: c,
            done: d,
            total: t,
        } && c.cancelled && c.paused == control.paused && d == done && t == total,
        MeasureState::Idle => b is Idle,
    }
}

/// Whether a delete job has been cancelled and is otherwise as before.
pub open spec fn is_cancelled_delete(a: DeleteJob, b: DeleteJob) -> bool {
    &&& b.control.cancelled
    &&& b.control.paused == a.control.paused
    &&& b.clock.pause_start() is None
    &&& b.clock.follows(a.clock, false)
    &&& b.same_work(a)
}

/// Whether a copy, if there is one, has been cancelled and is otherwise as
/// before.
pub open spec fn is_cancelled_copy(a: Option<CopyJob>, b: Option<CopyJob>) -> bool {
    match a {
        Some(j) => {
            &&& b matches Some(k)
            &&& k.control.cancelled && k.control.paused == j.control.paused
            &&& k.clock.pause_start() is None
            &&& k.clock.follows(j.clock, false)
            &&& k.same_work(j)
        },
        None => b is None,
    }
}

/// Whether a re-encode run, if there is one, has been cancelled and is
/// otherwise as before.
pub open spec fn is_cancelled_reencode(a: Option<ReencodeJob>, b: Option<ReencodeJob>) -> bool {
    match a {
        Some(j) => {
            &&& b matches Some(k)
            &&& k.control.cancelled && k.control.paused == j.control.paused
            &&& k.clock.pause_start() is None
            &&& k.clock.follows(j.clock, false)
            &&& k.same_work(j)
        },
        None => b is None,
    }
}

/// Whether a run of moves, if there is one, has been cancelled and is otherwise
/// as before.
pub open spec fn is_cancelled_flatten(a: Option<MoveJob>, b: Option<MoveJob>) -> bool {
    match a {
        Some(j) => {
            &&& b matches Some(k)
            &&& k.control.cancelled && k.control.paused == j.control.paused
            &&& k.clock.pause_start() is None
            &&& k.clock.follows(j.clock, false)
            &&& k == (MoveJob { control: k.control, clock: k.clock, ..j })
        },
        None => b is None,
    }
}

impl DupeApp {
    /// The background jobs still running, by name.
    pub open spec fn work_names(self) -> Seq<Seq<char>> {
        named_if(self.scan_state is Running, "a scan"@) + named_if(
            self.delete_jobs@.len() > 0,
            "deleting"@,
        ) + named_if(self.reverse_search.index_state is Running, "reverse-search indexing"@)
            + named_if(self.drive_fill.copy is Some, "a drive-fill copy"@) + named_if(
            self.drive_fill.copy is None && self.drive_fill.measure is Running,
            "measuring drive-fill folders"@,
        ) + named_if(self.reencode.job is Some, "re-encoding"@) + named_if(
            self.flatten.job is Some,
            "flattening"@,
        )
    }

    /// Human-readable names of the background jobs still running.
    pub fn running_work(&self) -> (r: Vec<&'static str>)
        ensures
            names_of(r@) == self.work_names(),
    {
        let mut running: Vec<&'static str> = Vec::new();
        assert(names_of(running@) =~= seq![]);
        push_if(&mut running, self.is_scanning(), "a scan");
        push_if(&mut running, self.is_deleting(), "deleting");
        push_if(&mut running, self.reverse_search.is_indexing(), "reverse-search indexing");
        let copying: bool = self.drive_fill.is_copying();
        push_if(&mut running, copying, "a drive-fill copy");
        push_if(
            &mut running,
            !copying && self.drive_fill.is_measuring(),
            "measuring drive-fill folders",
        );
        push_if(&mut running, self.reencode.is_running(), "re-encoding");
        push_if(&mut running, self.flatten.is_running(), "flattening");
        assert(names_of(running@) =~= self.work_names());
        running
    }

    /// Closing needs a confirmation while work is running or duplicate
    /// results that would be lost are showing.
    pub fn close_needs_confirm(&self) -> (r: bool)
        ensures
            r == (self.work_names().len() > 0 || self.groups@.len() > 0
                || self.similar_groups@.len() > 0),
    {
        let running = self.running_work();
        assert(running@.len() == names_of(running@).len());
        running.len() > 0 || self.groups.len() > 0 || self.similar_groups.len() > 0
    }

    /// Takes note that the window is to be closed. Says whether it may be; if
    /// not, the user is asked.
    pub fn request_close(&mut self) -> (r: bool)
        ensures
            old(self).is_sound() ==> final(self).is_sound(),
            r == (old(self).allow_close || !(old(self).work_names().len() > 0 || old(self).groups@.len() > 0 || old(self).similar_groups@.len() > 0)),
            *final(self) == (if r {
                *old(self)
            } else {
                DupeApp { pending_confirm: Some(ConfirmAction::CloseWindow), ..*old(self) }
            }),
    {
        if !self.allow_close && self.close_needs_confirm() {
            self.pending_confirm = Some(ConfirmAction::CloseWindow);
            false
        } else {
            true
        }
    }

    fn cancel_copy(&mut self)
        ensures
            is_cancelled_copy(old(self).drive_fill.copy, final(self).drive_fill.copy),
            *final(self) == (DupeApp {
                drive_fill: DriveFillState {
                    copy: final(self).drive_fill.copy,
                    ..old(self).drive_fill
                },
                ..*old(self)
            }),
    {
        if let Some(job) = self.drive_fill.copy.take() {
            let mut job: CopyJob = job;
            job.cancel();
            self.drive_fill.copy = Some(job);
        }
    }

    fn cancel_reencode(&mut self)
        ensures
            is_cancelled_reencode(old(self).reencode.job, final(self).reencode.job),
            *final(self) == (DupeApp {
                reencode: ReencodeState { job: final(self).reencode.job, ..old(self).reencode },
                ..*old(self)
            }),
    {
        if let Some(job) = self.reencode.job.take() {
            let mut job: ReencodeJob = job;
            job.cancel();
            self.reencode.job = Some(job);
        }
    }

    fn cancel_flatten(&mut self)
        ensures
            is_cancelled_flatten(old(self).flatten.job, final(self).flatten.job),
            *final(self) == (DupeApp {
                flatten: FlattenState { job: final(self).flatten.job, ..old(self).flatten },
                ..*old(self)
            }),
    {
        if let Some(job) = self.flatten.job.take() {
            let mut job: MoveJob = job;
            job.cancel();
            self.flatten.job = Some(job);
        }
    }

    fn cancel_delete(&mut self, id: u64)
        requires
            old(self).is_sound(),
        ensures
            final(self).is_sound(),
            match job_at(old(self).delete_jobs@, id) {
                None => *final(self) == *old(self),
                Some(j) => {
                    &&& final(self).delete_jobs@ == old(self).delete_jobs@.update(
                        j,
                        final(self).delete_jobs@[j],
                    )
                    &&& is_cancelled_delete(
                        old(self).delete_jobs@[j],
                        final(self).delete_jobs@[j],
                    )
                    &&& *final(self) == (DupeApp {
                        delete_jobs: final(self).delete_jobs,
                        ..*old(self)
                    })
                },
            },
    {
        if let Some(j) = self.find_job(id) {
            let ghost jobs = self.delete_jobs@;
            self.delete_jobs[j].cancel();
            proof {
                let now = self.delete_jobs@[j as int];
                assert(self.delete_jobs@ =~= jobs.update(j as int, now));
                lemma_same_queue(jobs, j as int, now, self.next_delete_job_id);
                if self.delete_confirm is Some {
                    lemma_none_queued_same(
                        jobs,
                        j as int,
                        now,
                        text::texts(self.delete_confirm->0.paths@),
                    );
                }
            }
        }
    }

    fn cancel_all_deletes(&mut self)
        requires
            old(self).is_sound(),
        ensures
            final(self).is_sound(),
            final(self).delete_jobs@.len() == old(self).delete_jobs@.len(),
            forall|j: int|
                0 <= j < old(self).delete_jobs@.len() ==> is_cancelled_delete(
                    old(self).delete_jobs@[j],
                    #[trigger] final(self).delete_jobs@[j],
                ),
            *final(self) == (DupeApp { delete_jobs: final(self).delete_jobs, ..*old(self) }),
    {
        let ghost all = self.delete_jobs@;
        let mut j: usize = 0;
        while j < self.delete_jobs.len()
            invariant
                j <= self.delete_jobs@.len(),
                self.is_sound(),
                all == old(self).delete_jobs@,
                self.delete_jobs@.len() == all.len(),
                forall|k: int|
                    0 <= k < j ==> is_cancelled_delete(
                        all[k],
                        #[trigger] self.delete_jobs@[k],
                    ),
                forall|k: int| j <= k < all.len() ==> #[trigger] self.delete_jobs@[k] == all[k],
                *self == (DupeApp { delete_jobs: self.delete_jobs, ..*old(self) }),
            decreases self.delete_jobs@.len() - j,
        {
            let ghost jobs = self.delete_jobs@;
            self.delete_jobs[j].cancel();
            proof {
                let now = self.delete_jobs@[j as int];
                assert(self.delete_jobs@ =~= jobs.update(j as int, now));
                lemma_same_queue(jobs, j as int, now, self.next_delete_job_id);
                if self.delete_confirm is Some {
                    lemma_none_queued_same(
                        jobs,
                        j as int,
                        now,
                        text::texts(self.delete_confirm->0.paths@),
                    );
                }
            }
            j = j + 1;
        }
    }

    /// Asks every worker to stop so it can clean up (e.g. remove a half-written
    /// file) in the moment before the process exits.
    fn close_down(&mut self)
        requires
            old(self).is_sound(),
        ensures
            final(self).is_sound(),
            carries_out(*old(self), ConfirmAction::CloseWindow, *final(self)),
    {
        self.cancel_all_deletes();
        self.cancel_scan();
        self.reverse_search.cancel_indexing();
        self.drive_fill.cancel_measure();
        self.cancel_copy();
        self.cancel_reencode();
        self.cancel_flatten();
        self.allow_close = true;
    }

    /// Carries out an action the user just confirmed in the dialog. Says
    /// whether the window is to be closed.
    pub fn apply_confirmed(&mut self, action: ConfirmAction) -> (r: bool)
        requires
            old(self).is_sound(),
        ensures
            final(self).is_sound(),
            r == (action is CloseWindow),
            carries_out(*old(self), action, *final(self)),
    {
        match action {
            ConfirmAction::CancelScan => self.cancel_scan(),
            ConfirmAction::CancelIndexing => self.reverse_search.cancel_indexing(),
            ConfirmAction::CancelDelete(id) => self.cancel_delete(id),
            ConfirmAction::CancelCopy => self.cancel_copy(),
            ConfirmAction::CancelReencode => self.cancel_reencode(),
            ConfirmAction::CancelFlatten => self.cancel_flatten(),
            ConfirmAction::CloseWindow => self.close_down(),
        }
        action == ConfirmAction::CloseWindow
    }
}

/// Whether `b` is what a confirmed action makes of `a`.
pub open spec fn carries_out(a: DupeApp, action: ConfirmAction, b: DupeApp) -> bool {
    match action {
        ConfirmAction::CancelScan => {
            &&& stops_scan(a.scan_state, b.scan_state)
            &&& b == (DupeApp { scan_state: b.scan_state, ..a })
        },
        ConfirmAction::CancelIndexing => {
            &&& stops_indexing(a.reverse_search.index_state, b.reverse_search.index_state)
            &&& b == (DupeApp {
                reverse_search: ReverseSearchState {
                    index_state: b.reverse_search.index_state,
                    ..a.reverse_search
                },
                ..a
            })
        },
        ConfirmAction::CancelDelete(id) => match job_at(a.delete_jobs@, id) {
            None => b == a,
            Some(j) => {
                &&& b.delete_jobs@ == a.delete_jobs@.update(j, b.delete_jobs@[j])
                &&& is_cancelled_delete(a.delete_jobs@[j], b.delete_jobs@[j])
                &&& b == (DupeApp { delete_jobs: b.delete_jobs, ..a })
            },
        },
        ConfirmAction::CancelCopy => {
            &&& is_cancelled_copy(a.drive_fill.copy, b.drive_fill.copy)
            &&& b == (DupeApp {
                drive_fill: DriveFillState { copy: b.drive_fill.copy, ..a.drive_fill },
                ..a
            })
        },
        ConfirmAction::CancelReencode => {
            &&& is_cancelled_reencode(a.reencode.job, b.reencode.job)
            &&& b == (DupeApp {
                reencode: ReencodeState { job: b.reencode.job, ..a.reencode },
                ..a
            })
        },
        ConfirmAction::CancelFlatten => {
            &&& is_cancelled_flatten(a.flatten.job, b.flatten.job)
            &&& b == (DupeApp {
                flatten: FlattenState { job: b.flatten.job, ..a.flatten },
                ..a
            })
        },
        ConfirmAction::CloseWindow => {
            &&& stops_scan(a.scan_state, b.scan_state)
            &&& stops_indexing(a.reverse_search.index_state, b.reverse_search.index_state)
            &&& b.delete_jobs@.len() == a.delete_jobs@.len()
            &&& forall|j: int|
                0 <= j < a.delete_jobs@.len() ==> is_cancelled_delete(
                    a.delete_jobs@[j],
                    #[trigger] b.delete_jobs@[j],
                )
            &&& stops_measuring(a.drive_fill.measure, b.drive_fill.measure)
            &&& is_cancelled_copy(a.drive_fill.copy, b.drive_fill.copy)
            &&& is_cancelled_reencode(a.reencode.job, b.reencode.job)
            &&& is_cancelled_flatten(a.flatten.job, b.flatten.job)
            &&& b.allow_close
            &&& b == (DupeApp {
                scan_state: b.scan_state,
                reverse_search: ReverseSearchState {
                    index_state: b.reverse_search.index_state,
                    ..a.reverse_search
                },
                delete_jobs: b.delete_jobs,
                drive_fill: DriveFillState {
                    copy: b.drive_fill.copy,
                    measure: b.drive_fill.measure,
                    ..a.drive_fill
                },
                reencode: ReencodeState { job: b.reencode.job, ..a.reencode },
                flatten: FlattenState { job: b.flatten.job, ..a.flatten },
                allow_close: b.allow_close,
                ..a
            })
        },
    }
}

/// How many files the delete jobs have together.
pub open spec fn total_files(jobs: Seq<DeleteJob>) -> nat
    decreases jobs.len(),
{
    if jobs.len() == 0 {
        0
    } else {
        total_files(jobs.drop_last()) + jobs.last().total as nat
    }
}

/// How many of them they have tried together.
pub open spec fn done_files(jobs: Seq<DeleteJob>) -> nat
    decreases jobs.len(),
{
    if jobs.len() == 0 {
        0
    } else {
        done_files(jobs.drop_last()) + jobs.last().done as nat
    }
}

/// Whether all the delete jobs are paused.
pub open spec fn all_paused(jobs: Seq<DeleteJob>) -> bool {
    forall|j: int| 0 <= j < jobs.len() ==> (#[trigger] jobs[j]).control.paused
}

/// What the taskbar button shows of work whose fraction is known or not.
pub open spec fn progress_of(fraction: Option<Fraction>, paused: bool) -> TaskbarProgress {
    if paused {
        TaskbarProgress::Paused(
            match fraction {
                Some(f) => f,
                None => Fraction { done: 0, total: 1 },
            },
        )
    } else {
        match fraction {
            Some(f) => TaskbarProgress::Normal(f),
            None => TaskbarProgress::Indeterminate,
        }
    }
}

/// `done` out of `total`, if there is anything to do.
pub open spec fn fraction_of(done: u64, total: u64) -> Option<Fraction> {
    if total > 0 {
        Some(Fraction { done, total })
    } else {
        None
    }
}

fn show_progress(done: u64, total: u64, paused: bool) -> (r: TaskbarProgress)
    ensures
        r == progress_of(fraction_of(done, total), paused),
{
    if total > 0 {
        let f = Fraction { done, total };
        if paused {
            TaskbarProgress::Paused(f)
        } else {
            TaskbarProgress::Normal(f)
        }
    } else if paused {
        TaskbarProgress::Paused(Fraction { done: 0, total: 1 })
    } else {
        TaskbarProgress::Indeterminate
    }
}

impl DupeApp {
    /// What the taskbar button should show for whatever background work is
    /// running. Deletes take precedence over a scan (they're what the user is
    /// most likely waiting on) and are combined into one bar across all
    /// running jobs; a scan in turn wins over reverse-search indexing.
    pub open spec fn shown_progress(self) -> TaskbarProgress {
        if self.delete_jobs@.len() > 0 {
            progress_of(
                fraction_of(
                    measure::capped(done_files(self.delete_jobs@)),
                    measure::capped(total_files(self.delete_jobs@)),
                ),
                all_paused(self.delete_jobs@),
            )
        } else if self.reencode.job is Some {
            let job = self.reencode.job->0;
            if job.total_files is None {
                TaskbarProgress::Indeterminate
            } else {
                let f = Fraction { done: job.processed(), total: job.total_bytes };
                if job.control.paused {
                    TaskbarProgress::Paused(f)
                } else {
                    TaskbarProgress::Normal(f)
                }
            }
        } else if self.drive_fill.copy is Some {
            let job = self.drive_fill.copy->0;
            // A copy of nothing is complete.
            let f = if job.total_bytes == 0 {
                Fraction { done: 1, total: 1 }
            } else {
                Fraction { done: job.bytes_done, total: job.total_bytes }
            };
            if job.control.paused {
                TaskbarProgress::Paused(f)
            } else {
                TaskbarProgress::Normal(f)
            }
        } else {
            match (self.scan_state, self.reverse_search.index_state) {
                (ScanState::Running(run), _) => progress_of(
                    match run.hash_progress {
                        Some(p) => fraction_of(p.done_bytes, p.total_bytes),
                        None => None,
                    },
                    run.control.paused,
                ),
                (_, IndexState::Running { control, scanned, total }) => progress_of(
                    fraction_of(scanned as u64, total as u64),
                    control.paused,
                ),
                _ => TaskbarProgress::Hidden,
            }
        }
    }

    /// Computes [`DupeApp::shown_progress`].
    pub fn taskbar_progress(&self) -> (r: TaskbarProgress)
        ensures
            r == self.shown_progress(),
    {
        if self.is_deleting() {
            return delete_progress(&self.delete_jobs);
        }
        if let Some(job) = &self.reencode.job {
            return match job.total_files {
                None => TaskbarProgress::Indeterminate,
                Some(_) => {
                    let f = Fraction { done: job.progress_bytes(), total: job.total_bytes };
                    if job.is_paused() {
                        TaskbarProgress::Paused(f)
                    } else {
                        TaskbarProgress::Normal(f)
                    }
                },
            };
        }
        if let Some(job) = &self.drive_fill.copy {
            let f = if job.total_bytes == 0 {
                Fraction { done: 1, total: 1 }
            } else {
                Fraction { done: job.bytes_done, total: job.total_bytes }
            };
            return if job.is_paused() {
                TaskbarProgress::Paused(f)
            } else {
                TaskbarProgress::Normal(f)
            };
        }
        if let ScanState::Running(run) = &self.scan_state {
            return match &run.hash_progress {
                Some(p) => show_progress(p.done_bytes, p.total_bytes, run.control.is_paused()),
                None => show_progress(0, 0, run.control.is_paused()),
            };
        }
        if let IndexState::Running { control, scanned, total } = &self.reverse_search.index_state {
            return show_progress(*scanned as u64, *total as u64, control.is_paused());
        }
        TaskbarProgress::Hidden
    }
}

fn delete_progress(jobs: &Vec<DeleteJob>) -> (r: TaskbarProgress)
    ensures
        r == progress_of(
            fraction_of(
                measure::capped(done_files(jobs@)),
                measure::capped(total_files(jobs@)),
            ),
            all_paused(jobs@),
        ),
{
    let mut total: u64 = 0;
    let mut done: u64 = 0;
    let mut paused: bool = true;
    let mut j: usize = 0;
    while j < jobs.len()
        invariant
            j <= jobs@.len(),
            total == measure::capped(total_files(jobs@.take(j as int))),
            done == measure::capped(done_files(jobs@.take(j as int))),
            paused == all_paused(jobs@.take(j as int)),
        decreases jobs@.len() - j,
    {
        assert(jobs@.take(j + 1).drop_last() =~= jobs@.take(j as int));
        assert(all_paused(jobs@.take(j + 1)) == (all_paused(jobs@.take(j as int))
            && jobs@[j as int].control.paused)) by {
            let now = jobs@.take(j + 1);
            let before = jobs@.take(j as int);
            if all_paused(now) {
                assert forall|k: int| 0 <= k < before.len() implies (
                #[trigger] before[k]).control.paused by {
                    assert(now[k] == before[k]);
                }
                assert(now[j as int].control.paused);
            }
            if all_paused(before) && jobs@[j as int].control.paused {
                assert forall|k: int| 0 <= k < now.len() implies (
                #[trigger] now[k]).control.paused by {
                    if k < j {
                        assert(now[k] == before[k]);
                    }
                }
            }
        }
        total = total.saturating_add(jobs[j].total as u64);
        done = done.saturating_add(jobs[j].done as u64);
        paused = paused && jobs[j].is_paused();
        j = j + 1;
    }
    assert(jobs@.take(jobs@.len() as int) =~= jobs@);
    show_progress(done, total, paused)
}

/// What is to be done once something was picked.
#[derive(Debug, PartialEq)]
pub enum PickFollowUp {
    Nothing,
    /// The picked file is to be looked up.
    Lookup(LookupRequest),
    /// The subfolders of the picked folder are to be sized up.
    Measure(String),
    /// The picked target is to be asked about.
    Space(SpaceRequest),
    /// A plan for the picked folder is to be made.
    Plan(PlanRequest),
}

impl DupeApp {
    /// Takes what was picked, to where it belongs; nothing if the picker was
    /// dismissed.
    pub fn take_picked(&mut self, purpose: PickPurpose, picked: Vec<String>) -> (r: PickFollowUp)
        ensures
            old(self).is_sound() ==> final(self).is_sound(),
            picks(*old(self), purpose, picked@, r, *final(self)),
    {
        match purpose {
            PickPurpose::ScanFolders => {
                dialogs::add_folders(&mut self.config.folders, picked);
                PickFollowUp::Nothing
            },
            PickPurpose::IndexFolders => {
                dialogs::add_folders(&mut self.reverse_search.index_folders, picked);
                PickFollowUp::Nothing
            },
            PickPurpose::ReencodeFolders => {
                dialogs::add_folders(&mut self.reencode.folders, picked);
                PickFollowUp::Nothing
            },
            _ => {
                if picked.len() == 0 {
                    return PickFollowUp::Nothing;
                }
                let path: String = picked[0].clone();
                match purpose {
                    PickPurpose::SearchFile => match self.reverse_search.pick_file(path) {
                        Some(q) => PickFollowUp::Lookup(q),
                        None => PickFollowUp::Nothing,
                    },
                    PickPurpose::FillSource => {
                        let source: String = path.clone();
                        if self.drive_fill.set_source(path) {
                            PickFollowUp::Measure(source)
                        } else {
                            PickFollowUp::Nothing
                        }
                    },
                    PickPurpose::FillTarget => match self.drive_fill.set_target(path) {
                        Some(q) => PickFollowUp::Space(q),
                        None => PickFollowUp::Nothing,
                    },
                    _ => match self.flatten.set_root(path) {
                        Some(q) => PickFollowUp::Plan(q),
                        None => PickFollowUp::Nothing,
                    },
                }
            },
        }
    }
}

/// What becomes of something picked.
pub open spec fn picks(
    a: DupeApp,
    purpose: PickPurpose,
    picked: Seq<String>,
    r: PickFollowUp,
    b: DupeApp,
) -> bool {
    match purpose {
        PickPurpose::ScanFolders => {
            &&& r is Nothing
            &&& b.config.folders@ == dialogs::with_folders(a.config.folders@, picked)
            &&& b == (DupeApp {
                config: ScanConfig { folders: b.config.folders, ..a.config },
                ..a
            })
        },
        PickPurpose::IndexFolders => {
            &&& r is Nothing
            &&& b.reverse_search.index_folders@ == dialogs::with_folders(
                a.reverse_search.index_folders@,
                picked,
            )
            &&& b == (DupeApp {
                reverse_search: ReverseSearchState {
                    index_folders: b.reverse_search.index_folders,
                    ..a.reverse_search
                },
                ..a
            })
        },
        PickPurpose::ReencodeFolders => {
            &&& r is Nothing
            &&& b.reencode.folders@ == dialogs::with_folders(a.reencode.folders@, picked)
            &&& b == (DupeApp {
                reencode: ReencodeState { folders: b.reencode.folders, ..a.reencode },
                ..a
            })
        },
        _ => if picked.len() == 0 {
            r is Nothing && b == a
        } else {
            match purpose {
                PickPurpose::SearchFile => {
                    &&& r matches PickFollowUp::Lookup(q)
                    &&& b.reverse_search.picked_file == Some(picked[0])
                    &&& b.reverse_search.has_asked(
                        ReverseSearchState { picked_file: Some(picked[0]), ..a.reverse_search },
                        Some(q),
                    )
                    &&& b == (DupeApp { reverse_search: b.reverse_search, ..a })
                },
                PickPurpose::FillSource => {
                    &&& if a.drive_fill.measure is Running || a.drive_fill.copy is Some {
                        r is Nothing && b.drive_fill == a.drive_fill
                    } else {
                        &&& r == PickFollowUp::Measure(picked[0])
                        &&& b.drive_fill.has_source(a.drive_fill, picked[0])
                    }
                    &&& b == (DupeApp { drive_fill: b.drive_fill, ..a })
                },
                PickPurpose::FillTarget => {
                    &&& if a.drive_fill.copy is Some {
                        r is Nothing && b.drive_fill == a.drive_fill
                    } else {
                        &&& r matches PickFollowUp::Space(q)
                        &&& b.drive_fill.target == Some(picked[0])
                        &&& b.drive_fill.has_asked(
                            DriveFillState { target: Some(picked[0]), ..a.drive_fill },
                            Some(q),
                        )
                    }
                    &&& b == (DupeApp { drive_fill: b.drive_fill, ..a })
                },
                _ => {
                    &&& if a.flatten.job is Some {
                        r is Nothing && b.flatten == a.flatten
                    } else {
                        &&& r matches PickFollowUp::Plan(q)
                        &&& b.flatten.has_chosen(a.flatten, picked[0], Some(q))
                    }
                    &&& b == (DupeApp { flatten: b.flatten, ..a })
                },
            }
        },
    }
}

/// What the rows show of their files.
pub open spec fn shown_in_rows(rows: Seq<RowInfo>) -> Seq<Shown> {
    rows.map_values(|r: RowInfo| (r.path, r.size))
}

/// The files of the listed groups.
pub open spec fn lists_at(groups: Seq<DupeGroup>, indices: Seq<int>) -> Seq<Seq<FileEntry>> {
    indices.map_values(|i: int| groups[i].files@)
}

proof fn lemma_rows_show(groups: Seq<DupeGroup>, indices: Seq<int>, only_dup: bool)
    requires
        view_cache::have_originals(groups),
        forall|a: int| 0 <= a < indices.len() ==> 0 <= #[trigger] indices[a] < groups.len(),
    ensures
        shown_in_rows(view_cache::rows_of(groups, indices, only_dup)) == shown_of_files(
            selection::visible(lists_at(groups, indices), only_dup),
        ),
    decreases indices.len(),
{
    let rows = view_cache::rows_of(groups, indices, only_dup);
    let lists = lists_at(groups, indices);
    if indices.len() > 0 {
        let less = indices.drop_last();
        lemma_rows_show(groups, less, only_dup);
        let g = groups[indices.last()];
        let before = view_cache::rows_of(groups, less, only_dup);
        let own = view_cache::group_rows(g, indices.last() as usize, only_dup);
        assert(lists.drop_last() =~= lists_at(groups, less));
        assert(lists.last() == g.files@);
        assert(g.files@.len() > 0);
        let files = selection::visible_in(g.files@, only_dup);
        assert(shown_in_rows(own) =~= shown_of_files(files));
        assert(shown_in_rows(before + own) =~= shown_in_rows(before) + shown_in_rows(own));
        let earlier = selection::visible(lists_at(groups, less), only_dup);
        assert(shown_of_files(earlier + files) =~= shown_of_files(earlier) + shown_of_files(files));
    } else {
        assert(shown_in_rows(rows) =~= shown_of_files(selection::visible(lists, only_dup)));
    }
}

proof fn lemma_filtered_lists(groups: Seq<DupeGroup>, name_filter: bool, n: nat)
    requires
        n <= groups.len(),
    ensures
        lists_at(groups, view_cache::filtered(groups, name_filter, n)) == model::file_lists(
            if name_filter {
                selection::copy_named(groups.take(n as int))
            } else {
                groups.take(n as int)
            },
        ),
        forall|a: int|
            0 <= a < view_cache::filtered(groups, name_filter, n).len() ==> 0
                <= #[trigger] view_cache::filtered(groups, name_filter, n)[a] < n,
    decreases n,
{
    let now = groups.take(n as int);
    let shown = if name_filter {
        selection::copy_named(now)
    } else {
        now
    };
    if n > 0 {
        let less = groups.take(n - 1);
        lemma_filtered_lists(groups, name_filter, (n - 1) as nat);
        assert(now.drop_last() =~= less);
        assert(now.last() == groups[n - 1]);
        let before = view_cache::filtered(groups, name_filter, (n - 1) as nat);
        let indices = view_cache::filtered(groups, name_filter, n);
        let shown_before = if name_filter {
            selection::copy_named(less)
        } else {
            less
        };
        if !name_filter || selection::has_copy_name(groups[n - 1].files@) {
            assert(indices == before.push(n - 1));
            assert(lists_at(groups, indices) =~= lists_at(groups, before).push(
                groups[n - 1].files@,
            ));
            assert(shown =~= shown_before.push(groups[n - 1]));
            assert(model::file_lists(shown) =~= model::file_lists(shown_before).push(
                groups[n - 1].files@,
            ));
        }
    } else {
        assert(lists_at(groups, view_cache::filtered(groups, name_filter, n))
            =~= model::file_lists(shown));
    }
}

proof fn lemma_visible_members(lists: Seq<Seq<FileEntry>>, only_dup: bool, f: FileEntry)
    ensures
        selection::visible(lists, only_dup).contains(f) <==> exists|g: int|
            0 <= g < lists.len() && selection::visible_in(
                #[trigger] lists[g],
                only_dup,
            ).contains(f),
    decreases lists.len(),
{
    if lists.len() > 0 {
        let less = lists.drop_last();
        let before = selection::visible(less, only_dup);
        let own = selection::visible_in(lists.last(), only_dup);
        let all = selection::visible(lists, only_dup);
        lemma_visible_members(less, only_dup, f);
        if all.contains(f) {
            let k = choose|k: int| 0 <= k < all.len() && all[k] == f;
            if k < before.len() {
                assert(before[k] == f);
                let g = choose|g: int|
                    0 <= g < less.len() && selection::visible_in(
                        #[trigger] less[g],
                        only_dup,
                    ).contains(f);
                assert(lists[g] == less[g]);
            } else {
                assert(own[k - before.len()] == f);
                assert(lists[lists.len() - 1] == lists.last());
            }
        }
        if exists|g: int|
            0 <= g < lists.len() && selection::visible_in(
                #[trigger] lists[g],
                only_dup,
            ).contains(f) {
            let g = choose|g: int|
                0 <= g < lists.len() && selection::visible_in(
                    #[trigger] lists[g],
                    only_dup,
                ).contains(f);
            if g < less.len() {
                assert(less[g] == lists[g]);
                let k = choose|k: int| 0 <= k < before.len() && before[k] == f;
                assert(all[k] == f);
            } else {
                let k = choose|k: int| 0 <= k < own.len() && own[k] == f;
                assert(all[before.len() + k] == f);
            }
        }
    }
}

proof fn lemma_reordered_members(
    lists: Seq<Seq<FileEntry>>,
    order: Seq<int>,
    only_dup: bool,
    f: FileEntry,
)
    requires
        forall|a: int| 0 <= a < order.len() ==> 0 <= #[trigger] order[a] < lists.len(),
        forall|x: int| 0 <= x < lists.len() ==> #[trigger] order.contains(x),
    ensures
        selection::visible(sorting::pick(lists, order), only_dup).contains(f)
            == selection::visible(lists, only_dup).contains(f),
{
    let other = sorting::pick(lists, order);
    lemma_visible_members(lists, only_dup, f);
    lemma_visible_members(other, only_dup, f);
    if exists|g: int|
        0 <= g < lists.len() && selection::visible_in(#[trigger] lists[g], only_dup).contains(f) {
        let g = choose|g: int|
            0 <= g < lists.len() && selection::visible_in(
                #[trigger] lists[g],
                only_dup,
            ).contains(f);
        assert(order.contains(g));
        let a = choose|a: int| 0 <= a < order.len() && order[a] == g;
        assert(other[a] == lists[g]);
    }
    if exists|g: int|
        0 <= g < other.len() && selection::visible_in(#[trigger] other[g], only_dup).contains(f) {
        let g = choose|g: int|
            0 <= g < other.len() && selection::visible_in(
                #[trigger] other[g],
                only_dup,
            ).contains(f);
        assert(other[g] == lists[order[g]]);
    }
}

/// The table, "select all" and the "shown" total never disagree: whatever the
/// groups are sorted by, the rows show the visible files, and in the order of
/// the groups if they are not sorted.
pub proof fn law_rows_are_the_visible_files(
    app: DupeApp,
    sort: Option<(SortColumn, SortDirection)>,
    f: FileEntry,
)
    requires
        app.is_sound(),
        app.active_mode is ExactContent,
    ensures
        ({
            let rows = view_cache::shown_rows(
                app.groups@,
                app.only_show_name_copies,
                app.only_show_duplicates,
                sort,
            );
            let files = selection::visible(
                model::file_lists(
                    if app.only_show_name_copies {
                        selection::copy_named(app.groups@)
                    } else {
                        app.groups@
                    },
                ),
                app.only_show_duplicates,
            );
            &&& app.visible_files() == shown_of_files(files)
            &&& sort is None ==> shown_in_rows(rows) == app.visible_files()
            &&& files.contains(f) ==> shown_in_rows(rows).contains((f.path, f.size))
            &&& forall|s: Shown| #[trigger]
                shown_in_rows(rows).contains(s) ==> app.visible_files().contains(s)
        }),
{
    let groups = app.groups@;
    let nf = app.only_show_name_copies;
    let dup = app.only_show_duplicates;
    let indices = view_cache::filtered(groups, nf, groups.len());
    let lists = lists_at(groups, indices);
    let files = selection::visible(lists, dup);
    let shown = view_cache::shown_groups(groups, nf, sort);
    let rows = view_cache::shown_rows(groups, nf, dup, sort);
    assert(groups.take(groups.len() as int) =~= groups);
    lemma_filtered_lists(groups, nf, groups.len());
    assert(app.visible_files() == shown_of_files(files));
    match sort {
        None => {
            lemma_rows_show(groups, indices, dup);
            if files.contains(f) {
                let k = choose|k: int| 0 <= k < files.len() && files[k] == f;
                assert(shown_in_rows(rows)[k] == (f.path, f.size));
            }
        },
        Some(s) => {
            let n = indices.len();
            let le = view_cache::group_ranking(groups, indices, s);
            let order = sorting::stable_order(n, le);
            view_cache::lemma_group_ranking(groups, indices, s);
            sorting::lemma_stable_order(n, n as int, le);
            assert forall|a: int| 0 <= a < shown.len() implies 0 <= #[trigger] shown[a]
                < groups.len() by {
                assert(shown[a] == indices[order[a]]);
            }
            lemma_rows_show(groups, shown, dup);
            let sorted = selection::visible(lists_at(groups, shown), dup);
            assert(lists_at(groups, shown) =~= sorting::pick(lists, order)) by {
                assert forall|a: int| 0 <= a < shown.len() implies lists_at(groups, shown)[a]
                    == sorting::pick(lists, order)[a] by {
                    assert(shown[a] == indices[order[a]]);
                }
            }
            lemma_reordered_members(lists, order, dup, f);
            if files.contains(f) {
                let k = choose|k: int| 0 <= k < sorted.len() && sorted[k] == f;
                assert(shown_in_rows(rows)[k] == (f.path, f.size));
            }
            assert forall|t: Shown| #[trigger]
                shown_in_rows(rows).contains(t) implies app.visible_files().contains(t) by {
                let k = choose|k: int|
                    0 <= k < shown_in_rows(rows).len() && shown_in_rows(rows)[k] == t;
                let x = sorted[k];
                assert(sorted.contains(x));
                lemma_reordered_members(lists, order, dup, x);
                let j = choose|j: int| 0 <= j < files.len() && files[j] == x;
                assert(app.visible_files()[j] == t);
            }
        },
    }
}

proof fn lemma_remaining_files(
    files: Seq<FileEntry>,
    deleted: Map<Seq<char>, Seq<char>>,
    k: int,
)
    requires
        0 <= k < remaining_files(files, deleted).len(),
    ensures
        !deleted.contains_key(paths::path_id(remaining_files(files, deleted)[k].path@)),
        files.contains(remaining_files(files, deleted)[k]),
    decreases files.len(),
{
    if files.len() > 0 {
        let less = files.drop_last();
        let before = remaining_files(less, deleted);
        let all = remaining_files(files, deleted);
        if k < before.len() {
            lemma_remaining_files(less, deleted, k);
            let i = choose|i: int| 0 <= i < less.len() && less[i] == before[k];
            assert(files[i] == all[k]);
        } else {
            assert(files[files.len() - 1] == all[k]);
        }
    }
}

/// Once a delete is over, the deleted files are gone from the results, and what
/// is left are groups of at least two files.
pub proof fn law_deleted_files_leave_the_results(
    groups: Seq<DupeGroup>,
    deleted: Map<Seq<char>, Seq<char>>,
    g: int,
    k: int,
)
    requires
        0 <= g < pruned_groups(groups, deleted).len(),
        0 <= k < pruned_groups(groups, deleted)[g].1.len(),
    ensures
        pruned_groups(groups, deleted)[g].1.len() > 1,
        !deleted.contains_key(
            paths::path_id(pruned_groups(groups, deleted)[g].1[k].path@),
        ),
    decreases groups.len(),
{
    if groups.len() > 0 {
        let before = pruned_groups(groups.drop_last(), deleted);
        if g < before.len() {
            law_deleted_files_leave_the_results(groups.drop_last(), deleted, g, k);
        } else {
            lemma_remaining_files(groups.last().files@, deleted, k);
        }
    }
}

/// The criteria by what they are about: no file of the group is older than the
/// oldest, none newer than the newest, and no path is shorter than the shortest or
/// longer than the longest. Of several the first counts as oldest and shortest, the
/// last as newest and longest.
pub proof fn law_criteria_find_the_extremes(files: Seq<TimedPath>, criterion: SelectCriterion, k: int)
    requires
        0 <= k < files.len(),
    ensures
        0 <= target(files, criterion) < files.len(),
        ({
            let t = target(files, criterion);
            let len = |f: TimedPath| vstd::utf8::encode_utf8(f.path@).len();
            match criterion {
                SelectCriterion::Oldest => files[t].modified <= files[k].modified && (k < t
                    ==> files[t].modified < files[k].modified),
                SelectCriterion::Newest => files[t].modified >= files[k].modified && (k > t
                    ==> files[t].modified > files[k].modified),
                SelectCriterion::ShortestPath => len(files[t]) <= len(files[k]) && (k < t ==> len(
                    files[t],
                ) < len(files[k])),
                SelectCriterion::LongestPath => len(files[t]) >= len(files[k]) && (k > t ==> len(
                    files[t],
                ) > len(files[k])),
            }
        }),
{
    lemma_target(files, criterion);
    view_cache::law_extremes(times(files), k);
    view_cache::law_extremes(path_lens(files), k);
}

/// Inverted, a criterion selects every file but the one that it targets.
pub proof fn law_inverted_criteria_keep_one(
    files: Seq<TimedPath>,
    criterion: SelectCriterion,
    k: int,
)
    requires
        0 <= k < files.len(),
        k != target(files, criterion),
    ensures
        selected_paths(files, criterion, true, files.len()).contains(files[k].path@),
        selected_paths(files, criterion, true, files.len()).len() == files.len() - 1,
{
    lemma_inverted(files, criterion, files.len(), k);
    law_invert_selects_the_rest(files, criterion, files.len());
}

proof fn lemma_inverted(files: Seq<TimedPath>, criterion: SelectCriterion, n: nat, k: int)
    requires
        0 <= k < n <= files.len(),
        k != target(files, criterion),
    ensures
        selected_paths(files, criterion, true, n).contains(files[k].path@),
    decreases n,
{
    let all = selected_paths(files, criterion, true, n);
    if k == n - 1 {
        assert(all.last() == files[k].path@);
    } else {
        lemma_inverted(files, criterion, (n - 1) as nat, k);
        let less = selected_paths(files, criterion, true, (n - 1) as nat);
        let i = choose|i: int| 0 <= i < less.len() && less[i] == files[k].path@;
        assert(all[i] == less[i]);
    }
}

/// A criterion adds to the selection, one group after the other.
pub proof fn law_criteria_go_group_by_group(
    selection: Map<Seq<char>, Seq<char>>,
    groups: Seq<Seq<TimedPath>>,
    files: Seq<TimedPath>,
    criterion: SelectCriterion,
    invert: bool,
)
    ensures
        criterion_selection(selection, Seq::<Seq<TimedPath>>::empty(), criterion, invert)
            == selection,
        criterion_selection(selection, groups.push(files), criterion, invert) == sets::with_paths(
            criterion_selection(selection, groups, criterion, invert),
            selected_paths(files, criterion, invert, files.len()),
        ),
{
    assert(groups.push(files).drop_last() =~= groups);
}

/// What a running scan's reports do: what was found is added to the results, which
/// otherwise stay, how far it has come is taken down, and the time that it took
/// leaves out its pauses. Nothing of it changes the selection.
pub proof fn law_scan_reports_are_taken(
    a: DupeApp,
    run: ScanRun,
    event: ScanEvent,
    paused: u64,
    b: DupeApp,
)
    requires
        takes_scan_event(a, run, event, paused, b),
        a.scan_state == ScanState::Running(run),
    ensures
        b.selection == a.selection,
        b.delete_jobs == a.delete_jobs,
        b.config == a.config,
        b.active_mode == a.active_mode,
        match event {
            ScanEvent::GroupFound(g) => b.groups@ == a.groups@.push(g) && b.groups_generation
                != a.groups_generation,
            _ => b.groups == a.groups,
        },
        match event {
            ScanEvent::SimilarGroupFound(g) => b.similar_groups@ == a.similar_groups@.push(g),
            _ => b.similar_groups == a.similar_groups,
        },
        match event {
            ScanEvent::FilesMatched(files) => b.matched_files@ == a.matched_files@ + files@,
            _ => b.matched_files == a.matched_files,
        },
        match event {
            ScanEvent::Error(msg) => b.status_message == Some(msg),
            _ => b.status_message == a.status_message,
        },
        match event {
            ScanEvent::Done { elapsed_ms } => b.scan_state matches ScanState::Done {
                elapsed_ms: took,
            } && (elapsed_ms * 1_000_000 >= paused ==> took + paused / 1_000_000 == elapsed_ms) && (
            elapsed_ms * 1_000_000 < paused ==> took == 0),
            ScanEvent::Progress { scanned } => b.scan_state matches ScanState::Running(now)
                && now.scanned == scanned && now.control == run.control && now.clock == run.clock
                && now.hash_progress == run.hash_progress,
            ScanEvent::HashPhaseStarted { total_bytes } => {
                &&& b.scan_state matches ScanState::Running(now)
                &&& now.scanned == run.scanned && now.control == run.control
                &&& now.hash_progress matches Some(p)
                &&& p.total_bytes == total_bytes && p.done_bytes == 0
            },
            ScanEvent::HashProgress { bytes_done } => {
                &&& b.scan_state matches ScanState::Running(now)
                &&& now.scanned == run.scanned && now.control == run.control
                &&& run.hash_progress is None ==> now.hash_progress is None
                &&& run.hash_progress matches Some(p) ==> (now.hash_progress matches Some(q)
                    && q.done_bytes == bytes_done && q.total_bytes == p.total_bytes)
            },
            _ => b.scan_state == a.scan_state,
        },
{
}

/// What is shown of the results of each kind of scan: of matching files all, and
/// of groups the files in order, the originals left out if only duplicates are to
/// be shown, and of the groups of equal files those with copy-like names if only
/// they are.
pub proof fn law_results_are_shown_by_mode(app: DupeApp, name_copies: bool, duplicates: bool)
    ensures
        ({
            let shown = app.results(name_copies, duplicates);
            match app.active_mode {
                ScanMode::MatchingFiles => shown.len() == app.matched_files@.len() && forall|i: int|
                    0 <= i < shown.len() ==> #[trigger] shown[i] == (
                        app.matched_files@[i].path,
                        app.matched_files@[i].size,
                    ),
                ScanMode::ExactContent => {
                    let groups = if name_copies {
                        selection::copy_named(app.groups@)
                    } else {
                        app.groups@
                    };
                    let files = selection::visible(
                        groups.map_values(|g: DupeGroup| g.files@),
                        duplicates,
                    );
                    shown.len() == files.len() && forall|i: int|
                        0 <= i < shown.len() ==> #[trigger] shown[i] == (
                            files[i].path,
                            files[i].size,
                        )
                },
                ScanMode::SimilarMedia => {
                    let files = selection::visible(
                        app.similar_groups@.map_values(|g: SimilarGroup| g.files@),
                        duplicates,
                    );
                    shown.len() == files.len() && forall|i: int|
                        0 <= i < shown.len() ==> #[trigger] shown[i] == (
                            files[i].path,
                            files[i].size,
                        )
                },
            }
        }),
        app.visible_files() == app.results(app.only_show_name_copies, app.only_show_duplicates),
{
    let groups = if name_copies {
        selection::copy_named(app.groups@)
    } else {
        app.groups@
    };
    assert(model::file_lists(groups) =~= groups.map_values(|g: DupeGroup| g.files@));
    assert(model::media_lists(app.similar_groups@) =~= app.similar_groups@.map_values(
        |g: SimilarGroup| g.files@,
    ));
}

/// What the status bar sums up: every file that is shown adds its size, and every
/// one that is selected is counted and adds its size to that of the selection.
pub proof fn law_shown_files_are_summed_up(
    shown: Seq<Shown>,
    s: Shown,
    set: Map<Seq<char>, Seq<char>>,
)
    ensures
        size_of(Seq::<Shown>::empty()) == 0,
        size_of(shown.push(s)) == size_of(shown) + s.1,
        count_within(Seq::<Shown>::empty(), set) == 0,
        size_within(Seq::<Shown>::empty(), set) == 0,
        set.contains_key(paths::path_id(s.0@)) ==> count_within(shown.push(s), set)
            == count_within(shown, set) + 1 && size_within(shown.push(s), set) == size_within(
            shown,
            set,
        ) + s.1,
        !set.contains_key(paths::path_id(s.0@)) ==> count_within(shown.push(s), set)
            == count_within(shown, set) && size_within(shown.push(s), set) == size_within(
            shown,
            set,
        ),
{
    assert(shown.push(s).drop_last() =~= shown);
}

/// Deleting the selection asks about the files that no running delete has been
/// given, in the order of the selection, and changes nothing else; the files go to
/// the trash unless the user says otherwise.
pub proof fn law_deleting_asks_about_the_rest(before: DupeApp, after: DupeApp, path: Seq<char>)
    requires
        asks_to_delete(before, after),
    ensures
        after.selection == before.selection,
        after.delete_jobs == before.delete_jobs,
        after.groups == before.groups,
        ({
            let asked = before.selection.order().contains(path) && forall|j: int|
                0 <= j < before.delete_jobs@.len() ==> !(
                #[trigger] before.delete_jobs@[j]).queued@.contains_key(paths::path_id(path));
            &&& asked ==> after.delete_confirm is Some
            &&& after.delete_confirm != before.delete_confirm ==> {
                &&& after.delete_confirm matches Some(c)
                &&& !c.permanent
                &&& text::texts(c.paths@).contains(path) <==> asked
                &&& c.total_size == measure::capped(
                    size_within(
                        before.results(false, false),
                        sets::with_paths(Map::empty(), text::texts(c.paths@)),
                    ),
                )
            }
        }),
{
    let order = before.selection.order();
    lemma_unqueued_members(before.delete_jobs@, order, path);
    let wanted = unqueued(before.delete_jobs@, order);
    if wanted.contains(path) {
        let i = choose|i: int| 0 <= i < wanted.len() && wanted[i] == path;
        assert(wanted.len() > 0);
    }
}

proof fn lemma_unqueued_members(jobs: Seq<DeleteJob>, list: Seq<Seq<char>>, path: Seq<char>)
    ensures
        unqueued(jobs, list).contains(path) <==> list.contains(path) && !queues(jobs, path),
    decreases list.len(),
{
    if list.len() > 0 {
        let less = list.drop_last();
        lemma_unqueued_members(jobs, less, path);
        let a = unqueued(jobs, less);
        let b = unqueued(jobs, list);
        assert(list[list.len() - 1] == list.last());
        if less.contains(path) {
            let i = choose|i: int| 0 <= i < less.len() && less[i] == path;
            assert(list[i] == path);
        }
        if list.contains(path) {
            let i = choose|i: int| 0 <= i < list.len() && list[i] == path;
            assert(i < less.len() ==> less[i] == path);
        }
        if a.contains(path) {
            let i = choose|i: int| 0 <= i < a.len() && a[i] == path;
            assert(b[i] == path);
        }
        if b.contains(path) {
            let i = choose|i: int| 0 <= i < b.len() && b[i] == path;
            assert(i < a.len() ==> a[i] == path);
        }
        if !queues(jobs, list.last()) {
            assert(b[a.len() as int] == list.last());
        }
    }
}

/// What is left of a list of files once some were deleted: those that were not, in
/// order. Of the groups those are left that still hold two files.
pub proof fn law_deleted_files_are_taken_out(
    files: Seq<FileEntry>,
    f: FileEntry,
    media: Seq<MediaEntry>,
    m: MediaEntry,
    deleted: Map<Seq<char>, Seq<char>>,
)
    ensures
        remaining_files(Seq::<FileEntry>::empty(), deleted).len() == 0,
        remaining_files(files.push(f), deleted) == (if deleted.contains_key(
            paths::path_id(f.path@),
        ) {
            remaining_files(files, deleted)
        } else {
            remaining_files(files, deleted).push(f)
        }),
        remaining_media(Seq::<MediaEntry>::empty(), deleted).len() == 0,
        remaining_media(media.push(m), deleted) == (if deleted.contains_key(
            paths::path_id(m.path@),
        ) {
            remaining_media(media, deleted)
        } else {
            remaining_media(media, deleted).push(m)
        }),
{
    assert(files.push(f).drop_last() =~= files);
    assert(media.push(m).drop_last() =~= media);
}

/// A group that has fewer than two files left after a delete leaves the results;
/// any other stays, with its hash, in its place.
pub proof fn law_groups_of_one_leave_the_results(
    groups: Seq<DupeGroup>,
    g: DupeGroup,
    similar: Seq<SimilarGroup>,
    h: SimilarGroup,
    deleted: Map<Seq<char>, Seq<char>>,
)
    ensures
        pruned_groups(Seq::<DupeGroup>::empty(), deleted).len() == 0,
        pruned_groups(groups.push(g), deleted) == (if remaining_files(g.files@, deleted).len() >= 2 {
            pruned_groups(groups, deleted).push((g.hash, remaining_files(g.files@, deleted)))
        } else {
            pruned_groups(groups, deleted)
        }),
        pruned_similar_groups(Seq::<SimilarGroup>::empty(), deleted).len() == 0,
        pruned_similar_groups(similar.push(h), deleted) == (if remaining_media(
            h.files@,
            deleted,
        ).len() >= 2 {
            pruned_similar_groups(similar, deleted).push(remaining_media(h.files@, deleted))
        } else {
            pruned_similar_groups(similar, deleted)
        }),
{
    assert(groups.push(g).drop_last() =~= groups);
    assert(similar.push(h).drop_last() =~= similar);
}

/// A finished delete says how many files are gone and where to, whether it was
/// cancelled, and how many files it skipped, if any.
pub proof fn law_deletes_are_summed_up(deleted: nat, skipped: nat)
    requires
        skipped > 0,
    ensures
        delete_status(false, false, deleted, 0) == "Moved "@ + text::decimal(deleted)
            + " file(s)"@ + " to the trash"@ + "."@,
        delete_status(false, true, deleted, 0) == "Permanently deleted "@ + text::decimal(deleted)
            + " file(s)"@ + "."@,
        delete_status(false, false, deleted, skipped) == "Moved "@ + text::decimal(deleted)
            + " file(s)"@ + " to the trash"@ + ("; skipped "@ + text::decimal(skipped)
            + " (missing or failed)."@),
        delete_status(false, true, deleted, skipped) == "Permanently deleted "@ + text::decimal(
            deleted,
        ) + " file(s)"@ + ("; skipped "@ + text::decimal(skipped) + " (missing or failed)."@),
        delete_status(true, false, deleted, skipped) == "Delete cancelled. "@ + delete_status(
            false,
            false,
            deleted,
            skipped,
        ),
        delete_status(true, true, deleted, skipped) == "Delete cancelled. "@ + delete_status(
            false,
            true,
            deleted,
            skipped,
        ),
        delete_status(true, false, deleted, 0) == "Delete cancelled. "@ + delete_status(
            false,
            false,
            deleted,
            0,
        ),
        delete_status(true, true, deleted, 0) == "Delete cancelled. "@ + delete_status(
            false,
            true,
            deleted,
            0,
        ),
{
    reveal_strlit("");
    let d = text::decimal(deleted);
    let s = "; skipped "@ + text::decimal(skipped) + " (missing or failed)."@;
    assert(delete_status(false, false, deleted, 0) =~= "Moved "@ + d + " file(s)"@
        + " to the trash"@ + "."@);
    assert(delete_status(false, true, deleted, 0) =~= "Permanently deleted "@ + d + " file(s)"@
        + "."@);
    assert(delete_status(false, false, deleted, skipped) =~= "Moved "@ + d + " file(s)"@
        + " to the trash"@ + s);
    assert(delete_status(false, true, deleted, skipped) =~= "Permanently deleted "@ + d
        + " file(s)"@ + s);
    assert(delete_status(true, false, deleted, skipped) =~= "Delete cancelled. "@ + delete_status(
        false,
        false,
        deleted,
        skipped,
    ));
    assert(delete_status(true, true, deleted, skipped) =~= "Delete cancelled. "@ + delete_status(
        false,
        true,
        deleted,
        skipped,
    ));
    assert(delete_status(true, false, deleted, 0) =~= "Delete cancelled. "@ + delete_status(
        false,
        false,
        deleted,
        0,
    ));
    assert(delete_status(true, true, deleted, 0) =~= "Delete cancelled. "@ + delete_status(
        false,
        true,
        deleted,
        0,
    ));
}

/// A file that was tried counts as done; if it is gone it is among the deleted
/// ones, and otherwise it counts as skipped.
pub proof fn law_tried_files_are_counted(
    job: DeleteJob,
    path: Seq<char>,
    deleted: bool,
    now: DeleteJob,
)
    requires
        job.after_file(path, deleted, now),
        job.done < usize::MAX,
        job.skipped < usize::MAX,
    ensures
        now.done == job.done + 1,
        deleted ==> now.skipped == job.skipped && now.deleted_paths@ == sets::with_path(
            job.deleted_paths@,
            path,
        ),
        !deleted ==> now.skipped == job.skipped + 1 && now.deleted_paths@ == job.deleted_paths@,
        now.total == job.total,
        now.queued == job.queued,
        now.id == job.id,
        now.permanent == job.permanent,
        now.control == job.control,
{
}

/// A delete that starts has every file before it: none is done, deleted or skipped,
/// and all are queued.
pub proof fn law_deletes_start_from_the_beginning(job: DeleteJob, request: DeleteRequest)
    requires
        is_new_job(job, request),
    ensures
        job.id == request.id,
        job.permanent == request.permanent,
        job.total == request.paths@.len(),
        job.done == 0,
        job.skipped == 0,
        job.deleted_paths@.dom() == Set::<Seq<char>>::empty(),
        !job.control.cancelled,
        !job.control.paused,
        job.clock.pause_start() is None,
        job.clock.pauses() == 0,
        job.current is None,
        job.queued@ == sets::with_paths(Map::empty(), text::texts(request.paths@)),
{
}

/// Once a delete is over, its files have left the results and the selection, what
/// is listed is made anew, and what else there is stays.
pub proof fn law_finished_deletes_prune_the_results(app: DupeApp, before: DupeApp, job: DeleteJob)
    requires
        app.is_pruned(before, job),
    ensures
        forall|id: Seq<char>| #[trigger]
            app.selection@.contains_key(id) <==> before.selection@.contains_key(id)
                && !job.deleted_paths@.contains_key(id),
        app.matched_files@ == remaining_files(before.matched_files@, job.deleted_paths@),
        group_values(app.groups@) == pruned_groups(before.groups@, job.deleted_paths@),
        model::media_lists(app.similar_groups@) == pruned_similar_groups(
            before.similar_groups@,
            job.deleted_paths@,
        ),
        app.groups_generation != before.groups_generation,
        app.status_message matches Some(m) && m@ == delete_status(
            job.control.cancelled,
            job.permanent,
            job.deleted_paths@.dom().len(),
            job.skipped as nat,
        ),
        app.config == before.config,
        app.scan_state == before.scan_state,
        app.delete_confirm == before.delete_confirm,
{
}

/// Delete jobs are found by their numbers.
pub proof fn law_jobs_are_found_by_number(jobs: Seq<DeleteJob>, id: u64)
    ensures
        job_at(jobs, id) matches Some(j) ==> 0 <= j < jobs.len() && jobs[j].id == id,
        job_at(jobs, id) is None <==> forall|j: int|
            0 <= j < jobs.len() ==> (#[trigger] jobs[j]).id != id,
{
    lemma_job_at(jobs, id);
}

/// The work that is running, by name: each kind once, in this order.
pub proof fn law_running_work_is_named(app: DupeApp)
    ensures
        app.work_names() == (if app.scan_state is Running {
            seq!["a scan"@]
        } else {
            seq![]
        }) + (if app.delete_jobs@.len() > 0 {
            seq!["deleting"@]
        } else {
            seq![]
        }) + (if app.reverse_search.index_state is Running {
            seq!["reverse-search indexing"@]
        } else {
            seq![]
        }) + (if app.drive_fill.copy is Some {
            seq!["a drive-fill copy"@]
        } else if app.drive_fill.measure is Running {
            seq!["measuring drive-fill folders"@]
        } else {
            seq![]
        }) + (if app.reencode.job is Some {
            seq!["re-encoding"@]
        } else {
            seq![]
        }) + (if app.flatten.job is Some {
            seq!["flattening"@]
        } else {
            seq![]
        }),
{
}

/// What a confirmed action cancels, whatever it is, is what it names, if it is
/// running; closing the window cancels everything that is, and lets it close.
pub proof fn law_confirmed_actions_cancel(a: DupeApp, action: ConfirmAction, b: DupeApp)
    requires
        carries_out(a, action, b),
    ensures
        action is CancelScan || action is CloseWindow ==> (a.scan_state is Running ==> (
        b.scan_state matches ScanState::Running(run) && run.control.cancelled)),
        action is CancelIndexing || action is CloseWindow ==> (
        a.reverse_search.index_state is Running ==> (
        b.reverse_search.index_state matches IndexState::Running { control, .. }
            && control.cancelled)),
        action is CancelCopy || action is CloseWindow ==> (a.drive_fill.copy is Some ==> (
        b.drive_fill.copy matches Some(job) && job.control.cancelled)),
        action is CancelReencode || action is CloseWindow ==> (a.reencode.job is Some ==> (
        b.reencode.job matches Some(job) && job.control.cancelled)),
        action is CancelFlatten || action is CloseWindow ==> (a.flatten.job is Some ==> (
        b.flatten.job matches Some(job) && job.control.cancelled)),
        action is CloseWindow ==> (a.drive_fill.measure is Running ==> (
        b.drive_fill.measure matches MeasureState::Running { control, .. } && control.cancelled)),
        action is CloseWindow ==> b.allow_close && b.delete_jobs@.len() == a.delete_jobs@.len()
            && forall|j: int|
            0 <= j < b.delete_jobs@.len() ==> (#[trigger] b.delete_jobs@[j]).control.cancelled,
        action matches ConfirmAction::CancelDelete(id) ==> forall|j: int|
            0 <= j < a.delete_jobs@.len() && (#[trigger] a.delete_jobs@[j]).id == id && have_ids(
                a.delete_jobs@,
                a.next_delete_job_id,
            ) ==> j < b.delete_jobs@.len() && b.delete_jobs@[j].control.cancelled,
        // Nothing that was found is lost.
        b.groups == a.groups,
        b.similar_groups == a.similar_groups,
        b.matched_files == a.matched_files,
        b.selection == a.selection,
        b.config == a.config,
        !(action is CloseWindow) ==> b.allow_close == a.allow_close,
{
    if let ConfirmAction::CancelDelete(id) = action {
        lemma_job_at(a.delete_jobs@, id);
    }
}

/// What the taskbar button shows: deletes before anything else, all of them
/// together, then a re-encode run, a copy, a scan and indexing; nothing if none of
/// them runs.
pub proof fn law_taskbar_shows_the_foremost_work(app: DupeApp)
    ensures
        app.delete_jobs@.len() > 0 ==> ({
            let done = measure::capped(done_files(app.delete_jobs@));
            let total = measure::capped(total_files(app.delete_jobs@));
            let paused = forall|j: int|
                0 <= j < app.delete_jobs@.len() ==> (
                #[trigger] app.delete_jobs@[j]).control.paused;
            total > 0 ==> app.shown_progress() == (if paused {
                TaskbarProgress::Paused(Fraction { done, total })
            } else {
                TaskbarProgress::Normal(Fraction { done, total })
            })
        }),
        app.delete_jobs@.len() == 0 ==> (app.reencode.job matches Some(job) ==> (
        app.shown_progress() is Indeterminate <==> job.total_files is None)),
        app.delete_jobs@.len() == 0 && app.reencode.job is None ==> (
        app.drive_fill.copy matches Some(job) ==> ({
            let f = if job.total_bytes == 0 {
                Fraction { done: 1, total: 1 }
            } else {
                Fraction { done: job.bytes_done, total: job.total_bytes }
            };
            app.shown_progress() == (if job.control.paused {
                TaskbarProgress::Paused(f)
            } else {
                TaskbarProgress::Normal(f)
            })
        })),
        app.delete_jobs@.len() == 0 && app.reencode.job is None && app.drive_fill.copy is None ==> {
            &&& app.scan_state matches ScanState::Running(run) ==> {
                &&& run.control.paused <==> app.shown_progress() is Paused
                &&& !run.control.paused ==> (app.shown_progress() is Normal <==> (
                run.hash_progress matches Some(p) && p.total_bytes > 0))
                &&& run.hash_progress matches Some(p) ==> p.total_bytes > 0 ==> (
                !run.control.paused ==> app.shown_progress() == TaskbarProgress::Normal(
                    Fraction { done: p.done_bytes, total: p.total_bytes },
                ))
            }
            &&& !(app.scan_state is Running) ==> (app.shown_progress() is Hidden <==> !(
            app.reverse_search.index_state is Running))
        },
{
}

/// The files of all running deletes are counted together.
pub proof fn law_deletes_are_counted_together(jobs: Seq<DeleteJob>, job: DeleteJob)
    ensures
        total_files(Seq::<DeleteJob>::empty()) == 0,
        done_files(Seq::<DeleteJob>::empty()) == 0,
        total_files(jobs.push(job)) == total_files(jobs) + job.total,
        done_files(jobs.push(job)) == done_files(jobs) + job.done,
{
    assert(jobs.push(job).drop_last() =~= jobs);
}

/// Where what was picked goes: folders to the list that they were picked for, each
/// once, and a single choice to the place of the one before, unless work on that
/// one is running; with nothing picked, nothing changes.
pub proof fn law_picked_paths_go_where_they_belong(
    a: DupeApp,
    purpose: PickPurpose,
    picked: Seq<String>,
    r: PickFollowUp,
    b: DupeApp,
)
    requires
        picks(a, purpose, picked, r, b),
    ensures
        purpose is ScanFolders ==> b.config.folders@ == dialogs::with_folders(
            a.config.folders@,
            picked,
        ),
        !(purpose is ScanFolders) ==> b.config.folders == a.config.folders,
        purpose is IndexFolders ==> b.reverse_search.index_folders@ == dialogs::with_folders(
            a.reverse_search.index_folders@,
            picked,
        ),
        purpose is ReencodeFolders ==> b.reencode.folders@ == dialogs::with_folders(
            a.reencode.folders@,
            picked,
        ),
        !(purpose is ReencodeFolders) ==> b.reencode == a.reencode,
        purpose is SearchFile && picked.len() > 0 ==> b.reverse_search.picked_file == Some(
            picked[0],
        ) && r is Lookup,
        purpose is FillTarget && picked.len() > 0 && a.drive_fill.copy is None
            ==> b.drive_fill.target == Some(picked[0]) && r is Space,
        purpose is FillSource && picked.len() > 0 && a.drive_fill.copy is None && !(
        a.drive_fill.measure is Running) ==> r == PickFollowUp::Measure(picked[0]),
        purpose is FillSource || purpose is FillTarget ==> (a.drive_fill.copy is Some
            ==> b.drive_fill == a.drive_fill),
        purpose is SearchFile || purpose is FillSource || purpose is FillTarget
            || purpose is FlattenRoot ==> (picked.len() == 0 ==> b == a && r is Nothing),
        b.groups == a.groups,
        b.selection == a.selection,
{
}

/// What bulk selection sees of the groups: the paths and modification times of their
/// files, in order.
pub proof fn law_selection_sees_paths_and_times(
    groups: Seq<DupeGroup>,
    similar: Seq<SimilarGroup>,
    g: int,
    k: int,
)
    ensures
        timed_groups(groups).len() == groups.len(),
        timed_similar_groups(similar).len() == similar.len(),
        0 <= g < groups.len() ==> timed_groups(groups)[g].len() == groups[g].files@.len(),
        0 <= g < groups.len() && 0 <= k < groups[g].files@.len() ==> timed_groups(groups)[g][k].path
            == groups[g].files@[k].path && timed_groups(groups)[g][k].modified
            == groups[g].files@[k].modified,
        0 <= g < similar.len() ==> timed_similar_groups(similar)[g].len()
            == similar[g].files@.len(),
        0 <= g < similar.len() && 0 <= k < similar[g].files@.len() ==> timed_similar_groups(
            similar,
        )[g][k].path == similar[g].files@[k].path && timed_similar_groups(similar)[g][k].modified
            == similar[g].files@[k].modified,
{
}

/// What Ctrl+A and Escape select: Ctrl+A every file that is listed and nothing else,
/// Escape nothing, whatever else was pressed, and neither leaves the selection as it
/// is.
pub proof fn law_keys_select(app: DupeApp, ctrl_a: bool, id: Seq<char>)
    ensures
        !app.keyed_selection(ctrl_a, true).contains_key(id),
        app.keyed_selection(false, false) == app.selection@,
        app.active_mode is ExactContent ==> (app.keyed_selection(true, false).contains_key(id)
            <==> exists|k: int|
            0 <= k < app.exact_rows_cache.rows@.len() && paths::path_id(
                (#[trigger] app.exact_rows_cache.rows@[k]).path@,
            ) == id),
        !(app.active_mode is ExactContent) ==> (app.keyed_selection(true, false).contains_key(id)
            <==> exists|k: int|
            0 <= k < app.visible_files().len() && paths::path_id(
                (#[trigger] app.visible_files()[k]).0@,
            ) == id),
{
    let list = app.listed_paths();
    let none = Map::<Seq<char>, Seq<char>>::empty();
    sets::lemma_with_paths(none, list);
    let ids = sets::path_ids(list);
    assert(sets::with_paths(none, list).contains_key(id) == ids.contains(id));
    let rows = app.exact_rows_cache.rows@;
    let shown = app.visible_files();
    if ids.contains(id) {
        let k = choose|k: int| 0 <= k < ids.len() && ids[k] == id;
        if app.active_mode is ExactContent {
            assert(paths::path_id(rows[k].path@) == id);
        } else {
            assert(paths::path_id(shown[k].0@) == id);
        }
    }
    if app.active_mode is ExactContent {
        assert forall|k: int|
            0 <= k < rows.len() && paths::path_id((#[trigger] rows[k]).path@) == id implies ids.contains(
            id,
        ) by {
            assert(ids[k] == id);
        }
    } else {
        assert forall|k: int|
            0 <= k < shown.len() && paths::path_id((#[trigger] shown[k]).0@) == id implies ids.contains(
            id,
        ) by {
            assert(ids[k] == id);
        }
    }
}

/// Pausing or cancelling a delete leaves what it has done and what it is to do.
pub proof fn law_deletes_keep_their_work(after: DeleteJob, before: DeleteJob)
    requires
        after.same_work(before),
    ensures
        after.id == before.id,
        after.queued == before.queued,
        after.total == before.total,
        after.done == before.done,
        after.deleted_paths == before.deleted_paths,
        after.skipped == before.skipped,
        after.permanent == before.permanent,
        after.current == before.current,
{
}

/// What is cancelled keeps what it has done: a scan what it has counted, a delete,
/// a copy and a re-encode run their work, a run of moves the moves that it has made.
pub proof fn law_cancelled_work_is_kept(a: DupeApp, action: ConfirmAction, b: DupeApp, j: int)
    requires
        carries_out(a, action, b),
    ensures
        a.scan_state matches ScanState::Running(x) ==> (b.scan_state matches ScanState::Running(y)
            && y.scanned == x.scanned && y.hash_progress == x.hash_progress && y.clock == x.clock
            && y.control.paused == x.control.paused),
        !(a.scan_state is Running) ==> b.scan_state == a.scan_state,
        b.delete_jobs@.len() == a.delete_jobs@.len(),
        0 <= j < a.delete_jobs@.len() ==> b.delete_jobs@[j].same_work(a.delete_jobs@[j]),
        a.drive_fill.copy matches Some(x) ==> (b.drive_fill.copy matches Some(y) && y.same_work(x)),
        a.reencode.job matches Some(x) ==> (b.reencode.job matches Some(y) && y.same_work(x)),
        a.flatten.job matches Some(x) ==> (b.flatten.job matches Some(y) && y.completed
            == x.completed && y.done == x.done && y.total == x.total && y.undo == x.undo),
        b.reencode.results == a.reencode.results,
        b.reverse_search.db == a.reverse_search.db,
        b.flatten.last_run == a.flatten.last_run,
{
    if let ConfirmAction::CancelDelete(id) = action {
        lemma_job_at(a.delete_jobs@, id);
    }
}

} // verus!
