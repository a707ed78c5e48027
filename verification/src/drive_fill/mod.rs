//! "Drive fill": copy whole top-level folders of a source directory onto a
//! target drive, choosing the subset that uses the target's free space as
//! fully as possible, and record every copied file in the reverse-search
//! index so it can later be found on whichever drive it ended up on.
//!
//! The state here decides; reading folders and copying files is up to the
//! caller, which carries out the requests that the state makes and hands back
//! what came of them.

use crate::app::SortDirection;
use crate::control::{self, ActiveClock, JobControl};
use crate::index_db::{IndexedFile, VolumeUsage};
use crate::paths;
use crate::sets::{self, PathSet, TextSet};
use crate::sorting;
use crate::text;
use crate::volume::DiskSpace;
use copy::CopyEvent;
use measure::{MeasureEvent, RootFolder};
use vstd::prelude::*;

pub mod copy;
pub mod measure;
pub mod plan;

verus! {

/// One mebibyte.
pub const MB: u64 = 1_048_576;

/// Where a top-level source folder stands in the current plan.
#[derive(Clone, Copy, Debug, PartialEq, Eq, Structural)]
pub enum FolderStatus {
    /// Will be copied.
    Planned,
    /// Left out: it doesn't fit alongside the folders picked instead.
    DoesNotFit,
    /// Unticked by the user.
    Excluded,
    /// A folder with the same name already exists in the target.
    ExistsInTarget,
}

impl FolderStatus {
    /// How the status is shown.
    pub fn label(self) -> (r: &'static str)
        ensures
            r@ == match self {
                FolderStatus::Planned => "Will copy"@,
                FolderStatus::DoesNotFit => "Doesn't fit"@,
                FolderStatus::Excluded => "Excluded"@,
                FolderStatus::ExistsInTarget => "Already in target"@,
            },
    {
        match self {
            FolderStatus::Planned => "Will copy",
            FolderStatus::DoesNotFit => "Doesn't fit",
            FolderStatus::Excluded => "Excluded",
            FolderStatus::ExistsInTarget => "Already in target",
        }
    }

    /// Where the status sorts.
    pub open spec fn rank(self) -> u8 {
        match self {
            FolderStatus::Planned => 0,
            FolderStatus::DoesNotFit => 1,
            FolderStatus::ExistsInTarget => 2,
            FolderStatus::Excluded => 3,
        }
    }
}

/// Sortable columns of the folder overview table.
#[derive(Clone, Copy, Debug, PartialEq, Eq, Structural)]
pub enum FolderSortColumn {
    Name,
    Size,
    Files,
    Modified,
    Created,
    Status,
}

/// Which folders are to be copied.
#[derive(Debug)]
pub struct FillPlan {
    /// Per entry of `DriveFillState::folders`.
    pub statuses: Vec<FolderStatus>,
    /// Sum of file sizes of the planned folders.
    pub planned_bytes: u64,
    /// Estimated on-disk footprint of the planned folders.
    pub planned_footprint: u64,
    /// Space the plan was allowed to use (free space minus the reserve).
    pub capacity: u64,
}

impl Default for FillPlan {
    fn default() -> (r: Self)
        ensures
            r.statuses@.len() == 0,
            r.planned_bytes == 0,
            r.planned_footprint == 0,
            r.capacity == 0,
    {
        FillPlan { statuses: Vec::new(), planned_bytes: 0, planned_footprint: 0, capacity: 0 }
    }
}

/// How many folders have the status `Planned`.
pub open spec fn planned_in(statuses: Seq<FolderStatus>) -> nat
    decreases statuses.len(),
{
    if statuses.len() == 0 {
        0
    } else {
        planned_in(statuses.drop_last()) + (if statuses.last() == FolderStatus::Planned {
            1nat
        } else {
            0nat
        })
    }
}

impl FillPlan {
    /// How many folders are to be copied.
    pub fn planned_count(&self) -> (r: usize)
        ensures
            r == planned_in(self.statuses@),
    {
        let mut n: usize = 0;
        let mut i: usize = 0;
        while i < self.statuses.len()
            invariant
                i <= self.statuses@.len(),
                n <= i,
                n == planned_in(self.statuses@.take(i as int)),
            decreases self.statuses@.len() - i,
        {
            assert(self.statuses@.take(i + 1).drop_last() =~= self.statuses@.take(i as int));
            if self.statuses[i] == FolderStatus::Planned {
                n = n + 1;
            }
            i = i + 1;
        }
        assert(self.statuses@.take(self.statuses@.len() as int) =~= self.statuses@);
        n
    }
}

/// Whether the source is being sized up.
#[derive(Debug)]
pub enum MeasureState {
    Idle,
    Running { control: JobControl, done: usize, total: usize },
}

/// A running copy onto the target.
#[derive(Debug)]
pub struct CopyJob {
    pub control: JobControl,
    pub clock: ActiveClock,
    pub total_bytes: u64,
    pub bytes_done: u64,
    pub files_copied: usize,
    pub errors: Vec<String>,
    pub current: Option<String>,
    /// The copied files by their hash, for the reverse-search index.
    pub entries: Vec<(String, IndexedFile)>,
}

impl CopyJob {
    /// Whether nothing has been copied yet.
    pub open spec fn is_fresh(self, total_bytes: u64) -> bool {
        &&& !self.control.cancelled && !self.control.paused
        &&& self.clock.pause_start() is None && self.clock.pauses() == 0
        &&& self.total_bytes == total_bytes
        &&& self.bytes_done == 0
        &&& self.files_copied == 0
        &&& self.errors@.len() == 0
        &&& self.current is None
        &&& self.entries@.len() == 0
    }

    fn new(total_bytes: u64) -> (r: Self)
        ensures
            r.is_fresh(total_bytes),
    {
        CopyJob {
            control: JobControl::default(),
            clock: ActiveClock::start(),
            total_bytes,
            bytes_done: 0,
            files_copied: 0,
            errors: Vec::new(),
            current: None,
            entries: Vec::new(),
        }
    }

    /// The time that is left after running for `elapsed`.
    pub fn eta(&self, elapsed: u64) -> (r: Option<u128>)
        ensures
            match r {
                Some(t) => control::remaining_time(self.bytes_done, self.total_bytes, elapsed)
                    == Some(t as nat),
                None => control::remaining_time(self.bytes_done, self.total_bytes, elapsed)
                    is None,
            },
    {
        control::estimate_remaining(self.bytes_done, self.total_bytes, elapsed)
    }

    /// All that pausing and cancelling leave alone.
    pub open spec fn same_work(self, other: CopyJob) -> bool {
        &&& self.total_bytes == other.total_bytes
        &&& self.bytes_done == other.bytes_done
        &&& self.files_copied == other.files_copied
        &&& self.errors == other.errors
        &&& self.current == other.current
        &&& self.entries == other.entries
    }

    /// Whether the job is paused.
    pub fn is_paused(&self) -> (r: bool)
        ensures
            r == self.control.paused,
    {
        self.control.is_paused()
    }

    /// Pauses the job or lets it go on, and its clock with it.
    pub fn toggle_pause(&mut self)
        ensures
            final(self).control.paused == !old(self).control.paused,
            final(self).control.cancelled == old(self).control.cancelled,
            final(self).clock.pause_start() is Some == final(self).control.paused,
            final(self).clock.follows(old(self).clock, final(self).control.paused),
            final(self).same_work(*old(self)),
    {
        let paused: bool = !self.control.is_paused();
        self.control.set_paused(paused);
        if paused {
            self.clock.pause();
        } else {
            self.clock.resume();
        }
    }

    /// Cancels the job; its clock goes on.
    pub fn cancel(&mut self)
        ensures
            final(self).control.cancelled,
            final(self).control.paused == old(self).control.paused,
            final(self).clock.pause_start() is None,
            final(self).clock.follows(old(self).clock, false),
            final(self).same_work(*old(self)),
    {
        self.control.cancel();
        self.clock.resume();
    }

    /// Whether the job is cancelled.
    pub fn is_cancelled(&self) -> (r: bool)
        ensures
            r == self.control.cancelled,
    {
        self.control.is_cancelled()
    }
}

/// The target's free space and folder names are wanted.
#[derive(Debug, PartialEq)]
pub struct SpaceRequest {
    pub ticket: u64,
    pub target: String,
}

/// A copy that has ended. Its files are to be added to the reverse-search
/// index.
#[derive(Debug, PartialEq)]
pub struct FinishedCopy {
    pub cancelled: bool,
    pub files_copied: usize,
    pub errors: Vec<String>,
    pub entries: Vec<(String, IndexedFile)>,
    pub aborted: Option<String>,
    pub usage: Option<(String, String, VolumeUsage)>,
}

/// What the state says once a copy is over.
pub open spec fn copy_status(
    aborted: Option<Seq<char>>,
    cancelled: bool,
    copied: nat,
    index_error: Option<Seq<char>>,
    errors: Seq<Seq<char>>,
) -> Seq<char> {
    (match aborted {
        Some(reason) => "Stopped: "@ + reason + " Copied "@,
        None => if cancelled {
            "Cancelled. Copied "@
        } else {
            "Copied "@
        },
    }) + text::decimal(copied) + " file(s)"@ + (match index_error {
        None => " and added them to the reverse-search index."@,
        Some(e) => ", but saving the reverse-search index failed: "@ + e,
    }) + (if errors.len() == 0 {
        ""@
    } else {
        " "@ + text::decimal(errors.len()) + " error(s); first: "@ + errors[0]
    })
}

/// The state of drive fill.
#[derive(Debug)]
pub struct DriveFillState {
    pub source: Option<String>,
    pub target: Option<String>,
    /// Space to leave free on the target, in MiB.
    pub reserve_mb: u64,
    pub folders: Vec<RootFolder>,
    /// Folders (by source path) the user unticked.
    pub excluded: PathSet,
    pub measure: MeasureState,
    pub copy: Option<CopyJob>,
    pub space: Option<DiskSpace>,
    /// Names of the folders already in the target, read alongside `space`.
    pub existing_in_target: TextSet,
    /// The number of the read of the target that is under way, so that a
    /// sleeping or slow target drive never stalls anything else.
    pub reading: Option<u64>,
    /// The number of the last read asked for.
    pub tickets: u64,
    pub plan: FillPlan,
    pub status: Option<String>,
    /// Overview table sort; `None` keeps the default largest-first order.
    pub sort: Option<(FolderSortColumn, SortDirection)>,
}

impl Default for DriveFillState {
    fn default() -> (r: Self)
        ensures
            r.source is None,
            r.target is None,
            r.reserve_mb == 256,
            r.folders@.len() == 0,
            r.excluded@ == Map::<Seq<char>, Seq<char>>::empty(),
            r.measure is Idle,
            r.copy is None,
            r.space is None,
            r.existing_in_target@ == Set::<Seq<char>>::empty(),
            r.reading is None,
            r.tickets == 0,
            r.plan.statuses@.len() == 0,
            r.plan.planned_bytes == 0,
            r.plan.planned_footprint == 0,
            r.plan.capacity == 0,
            r.status is None,
            r.sort is None,
    {
        DriveFillState {
            source: None,
            target: None,
            reserve_mb: 256,
            folders: Vec::new(),
            excluded: PathSet::new(),
            measure: MeasureState::Idle,
            copy: None,
            space: None,
            existing_in_target: TextSet::new(),
            reading: None,
            tickets: 0,
            plan: FillPlan::default(),
            status: None,
            sort: None,
        }
    }
}

/// The cluster size the plan counts with.
pub open spec fn plan_cluster(space: Option<DiskSpace>) -> u64 {
    match space {
        Some(s) => s.cluster,
        None => 4096,
    }
}

/// The space a plan may use: what is free on the target, less the reserve.
pub open spec fn plan_capacity(space: Option<DiskSpace>, reserve_mb: u64) -> u64 {
    match space {
        Some(s) => if s.free > reserve_mb * MB {
            (s.free - reserve_mb * MB) as u64
        } else {
            0
        },
        None => 0,
    }
}

/// Whether a folder may be planned: it is not unticked and there is nothing of
/// its name in the target.
pub open spec fn is_open(
    folder: RootFolder,
    excluded: Map<Seq<char>, Seq<char>>,
    existing: Set<Seq<char>>,
) -> bool {
    !excluded.contains_key(paths::path_id(folder.path@)) && !existing.contains(folder.name@)
}

/// The positions of the folders that may be planned.
pub open spec fn open_folders(
    folders: Seq<RootFolder>,
    excluded: Map<Seq<char>, Seq<char>>,
    existing: Set<Seq<char>>,
) -> Seq<int>
    decreases folders.len(),
{
    if folders.len() == 0 {
        seq![]
    } else if is_open(folders.last(), excluded, existing) {
        open_folders(folders.drop_last(), excluded, existing).push(folders.len() - 1)
    } else {
        open_folders(folders.drop_last(), excluded, existing)
    }
}

/// The footprints of the folders at the given positions.
pub open spec fn footprints(folders: Seq<RootFolder>, at: Seq<int>, cluster: u64) -> Seq<u64> {
    at.map_values(|i: int| measure::capped(folders[i].space(cluster)))
}

/// The sizes of the folders at the given positions.
pub open spec fn sizes(folders: Seq<RootFolder>, at: Seq<int>) -> Seq<u64> {
    at.map_values(|i: int| folders[i].size)
}

/// The status of a folder, given which are chosen.
pub open spec fn status_of(
    folder: RootFolder,
    chosen: bool,
    excluded: Map<Seq<char>, Seq<char>>,
    existing: Set<Seq<char>>,
) -> FolderStatus {
    if excluded.contains_key(paths::path_id(folder.path@)) {
        FolderStatus::Excluded
    } else if existing.contains(folder.name@) {
        FolderStatus::ExistsInTarget
    } else if chosen {
        FolderStatus::Planned
    } else {
        FolderStatus::DoesNotFit
    }
}

impl DriveFillState {
    /// The positions of the folders that may be planned.
    pub open spec fn candidates(self) -> Seq<int> {
        open_folders(self.folders@, self.excluded@, self.existing_in_target@)
    }

    /// Their footprints on the target.
    pub open spec fn weights(self) -> Seq<u64> {
        footprints(self.folders@, self.candidates(), plan_cluster(self.space))
    }

    /// Which of them are chosen: those that fill the capacity best, once there
    /// is a target.
    pub open spec fn picks(self) -> Seq<int> {
        if self.target is Some {
            plan::best_fit(self.weights(), plan_capacity(self.space, self.reserve_mb))
        } else {
            seq![]
        }
    }

    /// The positions of the folders that are chosen.
    pub open spec fn chosen(self) -> Seq<int> {
        sorting::pick(self.candidates(), self.picks())
    }

    /// Whether the plan is the one that follows from the rest of the state.
    pub open spec fn is_planned(self) -> bool {
        &&& self.plan.capacity == plan_capacity(self.space, self.reserve_mb)
        &&& self.plan.statuses@ == Seq::new(
            self.folders@.len(),
            |i: int|
                status_of(
                    self.folders@[i],
                    self.chosen().contains(i),
                    self.excluded@,
                    self.existing_in_target@,
                ),
        )
        &&& self.plan.planned_bytes == measure::capped(
            measure::total(sizes(self.folders@, self.chosen())),
        )
        &&& self.plan.planned_footprint == plan::total(self.weights(), self.picks())
    }

    /// All but the plan.
    pub open spec fn same_but_plan(self, other: DriveFillState) -> bool {
        self == (DriveFillState { plan: self.plan, ..other })
    }
}

proof fn lemma_open_folders(
    folders: Seq<RootFolder>,
    excluded: Map<Seq<char>, Seq<char>>,
    existing: Set<Seq<char>>,
)
    ensures
        forall|a: int|
            0 <= a < open_folders(folders, excluded, existing).len() ==> 0
                <= #[trigger] open_folders(folders, excluded, existing)[a] < folders.len()
                && is_open(
                folders[open_folders(folders, excluded, existing)[a]],
                excluded,
                existing,
            ),
        forall|a: int, b: int|
            0 <= a < b < open_folders(folders, excluded, existing).len()
                ==> #[trigger] open_folders(folders, excluded, existing)[a]
                < #[trigger] open_folders(folders, excluded, existing)[b],
    decreases folders.len(),
{
    if folders.len() > 0 {
        let less = folders.drop_last();
        lemma_open_folders(less, excluded, existing);
        let p = open_folders(less, excluded, existing);
        let r = open_folders(folders, excluded, existing);
        assert forall|a: int| 0 <= a < r.len() implies 0 <= #[trigger] r[a] < folders.len()
            && is_open(folders[r[a]], excluded, existing) by {
            if a < p.len() {
                assert(r[a] == p[a]);
                assert(folders[p[a]] == less[p[a]]);
            }
        }
        assert forall|a: int, b: int| 0 <= a < b < r.len() implies #[trigger] r[a]
            < #[trigger] r[b] by {
            assert(r[a] == p[a]);
            if b < p.len() {
                assert(r[b] == p[b]);
            }
        }
    }
}

/// A plan never takes more than the free space less the reserve.
pub proof fn law_plan_fits(state: DriveFillState)
    requires
        state.is_planned(),
    ensures
        state.plan.planned_footprint <= state.plan.capacity,
        state.space matches Some(s) ==> state.plan.planned_footprint == 0
            || state.plan.planned_footprint + state.reserve_mb * MB <= s.free,
        state.space is None ==> state.plan.planned_footprint == 0,
{
    plan::law_choice_fits(state.weights(), plan_capacity(state.space, state.reserve_mb));
}

/// A folder that is unticked, or whose name is taken in the target, is never
/// planned; nor is any without a target.
pub proof fn law_plan_spares(state: DriveFillState, i: int)
    requires
        state.is_planned(),
        0 <= i < state.folders@.len(),
        state.plan.statuses@[i] == FolderStatus::Planned,
    ensures
        !state.excluded@.contains_key(paths::path_id(state.folders@[i].path@)),
        !state.existing_in_target@.contains(state.folders@[i].name@),
        state.target is Some,
{
    if state.target is None {
        assert(state.chosen() =~= seq![]);
    }
}

/// What a plan says of a folder, by the folder alone: one that is unticked is
/// excluded, one whose name is taken in the target stays, and any other is
/// planned or left out. The plan may use what is free on the target less the
/// reserve in mebibytes, and nothing before the target has been read.
pub proof fn law_plan_follows_the_state(state: DriveFillState, i: int)
    requires
        state.is_planned(),
        0 <= i < state.folders@.len(),
    ensures
        state.plan.statuses@.len() == state.folders@.len(),
        state.excluded@.contains_key(paths::path_id(state.folders@[i].path@)) <==> (
        state.plan.statuses@[i] is Excluded),
        !state.excluded@.contains_key(paths::path_id(state.folders@[i].path@)) ==> (
        state.existing_in_target@.contains(state.folders@[i].name@) <==> (
        state.plan.statuses@[i] is ExistsInTarget)),
        state.target is None ==> !(state.plan.statuses@[i] is Planned),
        state.space is None ==> state.plan.capacity == 0,
        state.space matches Some(s) ==> (if s.free >= state.reserve_mb * 1024 * 1024 {
            state.plan.capacity == s.free - state.reserve_mb * 1024 * 1024
        } else {
            state.plan.capacity == 0
        }),
{
    if state.target is None {
        assert(state.chosen() =~= seq![]);
    }
}

/// Whether the positions, ascending, are those of the folders that are neither
/// unticked nor named like one in the target.
pub open spec fn lists_the_open(state: DriveFillState, at: Seq<int>) -> bool {
    &&& forall|a: int, b: int| 0 <= a < b < at.len() ==> #[trigger] at[a] < #[trigger] at[b]
    &&& forall|i: int|
        #[trigger] at.contains(i) <==> 0 <= i < state.folders@.len()
            && !state.excluded@.contains_key(paths::path_id(state.folders@[i].path@))
            && !state.existing_in_target@.contains(state.folders@[i].name@)
}

proof fn lemma_every_open_folder(
    folders: Seq<RootFolder>,
    excluded: Map<Seq<char>, Seq<char>>,
    existing: Set<Seq<char>>,
    i: int,
)
    requires
        0 <= i < folders.len(),
        is_open(folders[i], excluded, existing),
    ensures
        open_folders(folders, excluded, existing).contains(i),
    decreases folders.len(),
{
    let p = open_folders(folders.drop_last(), excluded, existing);
    let r = open_folders(folders, excluded, existing);
    if i == folders.len() - 1 {
        assert(r[p.len() as int] == i);
    } else {
        lemma_every_open_folder(folders.drop_last(), excluded, existing, i);
        let k = choose|k: int| 0 <= k < p.len() && p[k] == i;
        assert(r[k] == i);
    }
}

/// The open folders that fill the capacity best are planned, each weighed by the
/// space it takes in the target's clusters, of 4096 bytes as long as they are
/// unknown. What the plan says it takes, and holds, is what those folders take
/// and hold together.
pub proof fn law_plan_takes_the_best_fit(state: DriveFillState) -> (at: Seq<int>)
    requires
        state.is_planned(),
        state.target is Some,
    ensures
        lists_the_open(state, at),
        ({
            let cluster = match state.space {
                Some(s) => s.cluster,
                None => 4096,
            };
            let weights = at.map_values(|i: int| measure::capped(state.folders@[i].space(cluster)));
            let best = plan::best_fit(weights, state.plan.capacity);
            let planned = best.map_values(|k: int| at[k]);
            &&& forall|i: int|
                0 <= i < state.folders@.len() ==> (#[trigger] state.plan.statuses@[i] is Planned
                    <==> planned.contains(i))
            &&& state.plan.planned_footprint == plan::total(weights, best)
            &&& state.plan.planned_bytes == measure::capped(
                measure::total(planned.map_values(|i: int| state.folders@[i].size)),
            )
        }),
{
    let at = state.candidates();
    lemma_open_folders(state.folders@, state.excluded@, state.existing_in_target@);
    assert forall|i: int|
        #[trigger] at.contains(i) <==> 0 <= i < state.folders@.len()
            && !state.excluded@.contains_key(paths::path_id(state.folders@[i].path@))
            && !state.existing_in_target@.contains(state.folders@[i].name@) by {
        if at.contains(i) {
            let a = choose|a: int| 0 <= a < at.len() && at[a] == i;
            assert(is_open(state.folders@[at[a]], state.excluded@, state.existing_in_target@));
        }
        if 0 <= i < state.folders@.len() && is_open(
            state.folders@[i],
            state.excluded@,
            state.existing_in_target@,
        ) {
            lemma_every_open_folder(state.folders@, state.excluded@, state.existing_in_target@, i);
        }
    }
    let cluster = plan_cluster(state.space);
    let weights = at.map_values(|i: int| measure::capped(state.folders@[i].space(cluster)));
    assert(weights =~= state.weights());
    let best = plan::best_fit(weights, state.plan.capacity);
    let planned = best.map_values(|k: int| at[k]);
    plan::law_choice_fits(weights, state.plan.capacity);
    assert(planned =~= state.chosen());
    assert(planned.map_values(|i: int| state.folders@[i].size) =~= sizes(
        state.folders@,
        state.chosen(),
    ));
    assert forall|i: int| 0 <= i < state.folders@.len() implies (#[trigger] state.plan.statuses@[i]
        is Planned <==> planned.contains(i)) by {
        if planned.contains(i) {
            let k = choose|k: int| 0 <= k < planned.len() && planned[k] == i;
            assert(0 <= best[k] < weights.len());
            assert(at.contains(at[best[k]]));
        }
    }
    at
}

/// Of the folders those that are planned are copied, each into a folder of its
/// own name in the target, in order.
pub proof fn law_planned_folders_are_copied(
    folders: Seq<RootFolder>,
    statuses: Seq<FolderStatus>,
    target: Seq<char>,
    n: nat,
)
    ensures
        copy_pairs(folders, statuses, target, 0).len() == 0,
        statuses[n as int] is Planned ==> copy_pairs(folders, statuses, target, n + 1)
            == copy_pairs(folders, statuses, target, n).push(
            (folders[n as int].path@, paths::join(target, folders[n as int].name@)),
        ),
        !(statuses[n as int] is Planned) ==> copy_pairs(folders, statuses, target, n + 1)
            == copy_pairs(folders, statuses, target, n),
{
}

/// The number of planned folders is the number of those marked so.
pub proof fn law_planned_folders_are_counted(statuses: Seq<FolderStatus>, s: FolderStatus)
    ensures
        planned_in(Seq::<FolderStatus>::empty()) == 0,
        planned_in(statuses.push(s)) == planned_in(statuses) + (if s is Planned {
            1int
        } else {
            0
        }),
{
    assert(statuses.push(s).drop_last() =~= statuses);
}

/// How the overview table is sorted: going up by the chosen column the value
/// does not fall, going down it does not rise, and each folder has one row.
pub proof fn law_rows_are_in_order(
    folders: Seq<RootFolder>,
    statuses: Seq<FolderStatus>,
    column: FolderSortColumn,
    direction: SortDirection,
    a: int,
    b: int,
)
    requires
        0 <= a < b < folders.len(),
    ensures
        ({
            let rows = sorting::stable_order(
                folders.len(),
                row_order(folders, statuses, column, direction),
            );
            let (x, y) = match direction {
                SortDirection::Asc => (rows[a], rows[b]),
                SortDirection::Desc => (rows[b], rows[a]),
            };
            &&& rows.len() == folders.len()
            &&& 0 <= x < folders.len() && 0 <= y < folders.len() && x != y
            &&& column is Name ==> text::text_le(
                text::lowercase(folders[x].name@),
                text::lowercase(folders[y].name@),
            )
            &&& column is Size ==> folders[x].size <= folders[y].size
            &&& column is Files ==> folders[x].file_count <= folders[y].file_count
            &&& column is Modified ==> folders[x].modified <= folders[y].modified
            &&& column is Created ==> folders[x].created <= folders[y].created
            &&& column is Status && statuses.len() == folders.len() ==> {
                ||| statuses[x] is Planned
                ||| statuses[y] is Excluded
                ||| statuses[x] == statuses[y]
                ||| statuses[x] is DoesNotFit && statuses[y] is ExistsInTarget
            }
        }),
{
    let le = row_order(folders, statuses, column, direction);
    lemma_row_order(folders, statuses, column, direction);
    sorting::lemma_stable_order(folders.len(), folders.len() as int, le);
    let rows = sorting::stable_order(folders.len(), le);
    assert(sorting::comes_before(le, rows[a], rows[b]));
}

/// What is said once a copy is over: how many files were copied, whether it was
/// stopped or cancelled, whether the index has them, and the first error of as
/// many as there were.
pub proof fn law_copy_is_summed_up(
    reason: Seq<char>,
    copied: nat,
    e: Seq<char>,
    errors: Seq<Seq<char>>,
)
    ensures
        copy_status(None, false, copied, None, seq![]) == "Copied "@ + text::decimal(copied)
            + " file(s)"@ + " and added them to the reverse-search index."@,
        copy_status(None, true, copied, None, seq![]) == "Cancelled. Copied "@ + text::decimal(
            copied,
        ) + " file(s)"@ + " and added them to the reverse-search index."@,
        copy_status(Some(reason), true, copied, None, seq![]) == "Stopped: "@ + reason
            + " Copied "@ + text::decimal(copied) + " file(s)"@
            + " and added them to the reverse-search index."@,
        copy_status(Some(reason), false, copied, None, seq![]) == copy_status(
            Some(reason),
            true,
            copied,
            None,
            seq![],
        ),
        copy_status(None, false, copied, Some(e), seq![]) == "Copied "@ + text::decimal(copied)
            + " file(s)"@ + (", but saving the reverse-search index failed: "@ + e),
        errors.len() > 0 ==> copy_status(None, false, copied, None, errors) == copy_status(
            None,
            false,
            copied,
            None,
            seq![],
        ) + (" "@ + text::decimal(errors.len()) + " error(s); first: "@ + errors[0]),
{
    reveal_strlit("");
    let none = ""@;
    let a = "Copied "@ + text::decimal(copied) + " file(s)"@
        + " and added them to the reverse-search index."@;
    let b = "Cancelled. Copied "@ + text::decimal(copied) + " file(s)"@
        + " and added them to the reverse-search index."@;
    let c = "Stopped: "@ + reason + " Copied "@ + text::decimal(copied) + " file(s)"@
        + " and added them to the reverse-search index."@;
    let d = "Copied "@ + text::decimal(copied) + " file(s)"@ + (
    ", but saving the reverse-search index failed: "@ + e);
    assert(a + none =~= a && b + none =~= b && c + none =~= c && d + none =~= d);
}

/// The sort key of a folder, as a comparison: whether folder `i` does not come
/// after folder `j` by a column.
pub open spec fn column_le(
    folders: Seq<RootFolder>,
    statuses: Seq<FolderStatus>,
    column: FolderSortColumn,
    i: int,
    j: int,
) -> bool {
    match column {
        FolderSortColumn::Name => text::text_le(
            text::lowercase(folders[i].name@),
            text::lowercase(folders[j].name@),
        ),
        FolderSortColumn::Size => folders[i].size <= folders[j].size,
        FolderSortColumn::Files => folders[i].file_count <= folders[j].file_count,
        FolderSortColumn::Modified => folders[i].modified <= folders[j].modified,
        FolderSortColumn::Created => folders[i].created <= folders[j].created,
        FolderSortColumn::Status => status_rank(statuses, i) <= status_rank(statuses, j),
    }
}

/// Where a folder sorts by its status; last if it has none.
pub open spec fn status_rank(statuses: Seq<FolderStatus>, i: int) -> u8 {
    if i < statuses.len() {
        statuses[i].rank()
    } else {
        255
    }
}

/// The order of the folders in the overview table.
pub open spec fn row_order(
    folders: Seq<RootFolder>,
    statuses: Seq<FolderStatus>,
    column: FolderSortColumn,
    direction: SortDirection,
) -> spec_fn(int, int) -> bool {
    |i: int, j: int|
        match direction {
            SortDirection::Asc => column_le(folders, statuses, column, i, j),
            SortDirection::Desc => column_le(folders, statuses, column, j, i),
        }
}

proof fn lemma_row_order(
    folders: Seq<RootFolder>,
    statuses: Seq<FolderStatus>,
    column: FolderSortColumn,
    direction: SortDirection,
)
    ensures
        sorting::ranks(
            folders.len() as int,
            row_order(folders, statuses, column, direction),
        ),
{
    let le = row_order(folders, statuses, column, direction);
    let key = |i: int| text::lowercase(folders[i].name@);
    assert forall|i: int| 0 <= i < folders.len() implies #[trigger] le(i, i) by {
        text::lemma_text_le_order(key(i), key(i), key(i));
    }
    assert forall|i: int, j: int|
        0 <= i < folders.len() && 0 <= j < folders.len() implies #[trigger] le(i, j) || le(
        j,
        i,
    ) by {
        text::lemma_text_le_order(key(i), key(j), key(i));
    }
    assert forall|i: int, j: int, k: int|
        0 <= i < folders.len() && 0 <= j < folders.len() && 0 <= k < folders.len()
            && #[trigger] le(i, j) && #[trigger] le(j, k) implies le(i, k) by {
        text::lemma_text_le_order(key(i), key(j), key(k));
        text::lemma_text_le_order(key(k), key(j), key(i));
    }
}

/// The copies to be made: each planned folder and where it goes.
pub open spec fn copy_pairs(
    folders: Seq<RootFolder>,
    statuses: Seq<FolderStatus>,
    target: Seq<char>,
    n: nat,
) -> Seq<(Seq<char>, Seq<char>)>
    decreases n,
{
    if n == 0 {
        seq![]
    } else {
        let rest = copy_pairs(folders, statuses, target, (n - 1) as nat);
        if statuses[n - 1] == FolderStatus::Planned {
            rest.push((folders[n - 1].path@, paths::join(target, folders[n - 1].name@)))
        } else {
            rest
        }
    }
}

/// The pairs of texts.
pub open spec fn text_pairs(pairs: Seq<(String, String)>) -> Seq<(Seq<char>, Seq<char>)> {
    pairs.map_values(|p: (String, String)| (p.0@, p.1@))
}

impl DriveFillState {
    /// Whether the source is being sized up.
    pub fn is_measuring(&self) -> (r: bool)
        ensures
            r == (self.measure is Running),
    {
        match self.measure {
            MeasureState::Running { .. } => true,
            MeasureState::Idle => false,
        }
    }

    /// Whether folders are being copied.
    pub fn is_copying(&self) -> (r: bool)
        ensures
            r == (self.copy is Some),
    {
        self.copy.is_some()
    }

    /// Whether either is going on.
    pub fn is_busy(&self) -> (r: bool)
        ensures
            r == (self.measure is Running || self.copy is Some),
    {
        self.is_measuring() || self.is_copying()
    }

    /// Whether the planned folders can be copied.
    pub fn can_copy(&self) -> (r: bool)
        ensures
            r == (planned_in(self.plan.statuses@) > 0 && !(self.measure is Running) && self.copy
                is None),
    {
        self.plan.planned_count() > 0 && !self.is_busy()
    }

    /// Whether the target is being read.
    pub fn is_reading_target(&self) -> (r: bool)
        ensures
            r == (self.reading is Some),
    {
        self.reading.is_some()
    }

    /// Whether there is anything to wait for.
    pub fn needs_polling(&self) -> (r: bool)
        ensures
            r == (self.measure is Running || self.copy is Some || self.reading is Some),
    {
        self.is_busy() || self.is_reading_target()
    }

    /// Recomputes which folders to copy. Cheap enough to run on every input
    /// change (see `plan::MAX_DP_CELLS`), but not every frame.
    pub fn replan(&mut self)
        ensures
            final(self).is_planned(),
            final(self).same_but_plan(*old(self)),
    {
        let cluster: u64 = match self.space {
            Some(s) => s.cluster,
            None => 4096,
        };
        let capacity: u64 = match self.space {
            Some(s) => {
                let reserve: u128 = self.reserve_mb as u128 * 1_048_576;
                if s.free as u128 > reserve {
                    (s.free as u128 - reserve) as u64
                } else {
                    0
                }
            },
            None => 0,
        };
        let ghost folders = self.folders@;
        let ghost excluded = self.excluded@;
        let ghost existing = self.existing_in_target@;
        let mut statuses: Vec<FolderStatus> = Vec::new();
        let mut candidates: Vec<usize> = Vec::new();
        let mut weights: Vec<u64> = Vec::new();
        let mut i: usize = 0;
        while i < self.folders.len()
            invariant
                i <= self.folders@.len(),
                *self == *old(self),
                folders == self.folders@,
                excluded == self.excluded@,
                existing == self.existing_in_target@,
                cluster == plan_cluster(self.space),
                statuses@.len() == i,
                forall|k: int|
                    0 <= k < i ==> #[trigger] statuses@[k] == status_of(
                        folders[k],
                        false,
                        excluded,
                        existing,
                    ),
                sorting::positions(candidates@) =~= open_folders(
                    folders.take(i as int),
                    excluded,
                    existing,
                ),
                weights@ =~= footprints(folders, sorting::positions(candidates@), cluster),
            decreases self.folders@.len() - i,
        {
            assert(folders.take(i + 1).drop_last() =~= folders.take(i as int));
            let ghost before = candidates@;
            if self.excluded.contains(self.folders[i].path.as_str()) {
                statuses.push(FolderStatus::Excluded);
            } else if self.existing_in_target.contains(self.folders[i].name.as_str()) {
                statuses.push(FolderStatus::ExistsInTarget);
            } else {
                statuses.push(FolderStatus::DoesNotFit);
                candidates.push(i);
                weights.push(self.folders[i].footprint(cluster));
                assert(sorting::positions(candidates@) =~= sorting::positions(before).push(
                    i as int,
                ));
            }
            i = i + 1;
        }
        assert(folders.take(folders.len() as int) =~= folders);
        let mut planned_bytes: u64 = 0;
        let mut planned_footprint: u64 = 0;
        let picks: Vec<usize> = if self.target.is_some() {
            plan::choose_best_fit(weights.as_slice(), capacity)
        } else {
            Vec::new()
        };
        let ghost cs = self.candidates();
        proof {
            lemma_open_folders(folders, excluded, existing);
            assert(cs == sorting::positions(candidates@));
            assert(self.picks() =~= sorting::positions(picks@));
            assert(plan::total(weights@, sorting::positions(picks@)) <= capacity);
        }
        let ghost ps = sorting::positions(picks@);
        let ghost chosen = sorting::pick(cs, ps);
        let mut k: usize = 0;
        while k < picks.len()
            invariant
                k <= picks@.len(),
                *self == *old(self),
                folders == self.folders@,
                excluded == self.excluded@,
                existing == self.existing_in_target@,
                ps == sorting::positions(picks@),
                cs == sorting::positions(candidates@),
                chosen == sorting::pick(cs, ps),
                weights@.len() == candidates@.len(),
                statuses@.len() == folders.len(),
                forall|a: int|
                    0 <= a < cs.len() ==> 0 <= #[trigger] cs[a] < folders.len() && is_open(
                        folders[cs[a]],
                        excluded,
                        existing,
                    ),
                forall|a: int| 0 <= a < picks@.len() ==> #[trigger] picks@[a] < weights@.len(),
                forall|j: int|
                    0 <= j < folders.len() ==> #[trigger] statuses@[j] == status_of(
                        folders[j],
                        chosen.take(k as int).contains(j),
                        excluded,
                        existing,
                    ),
                planned_bytes == measure::capped(
                    measure::total(sizes(folders, chosen.take(k as int))),
                ),
                planned_footprint == measure::capped(plan::total(weights@, ps.take(k as int))),
            decreases picks@.len() - k,
        {
            let p: usize = picks[k];
            assert(ps[k as int] == p);
            assert(cs[p as int] == candidates@[p as int]);
            let i: usize = candidates[p];
            let ghost before = chosen.take(k as int);
            let ghost after = chosen.take(k + 1);
            assert(after =~= before.push(i as int));
            assert(sizes(folders, after).drop_last() =~= sizes(folders, before));
            assert(ps.take(k + 1).drop_last() =~= ps.take(k as int));
            statuses[i] = FolderStatus::Planned;
            planned_bytes = planned_bytes.saturating_add(self.folders[i].size);
            planned_footprint = planned_footprint.saturating_add(weights[p]);
            assert forall|j: int| 0 <= j < folders.len() implies #[trigger] statuses@[j]
                == status_of(folders[j], after.contains(j), excluded, existing) by {
                if j == i {
                    assert(after[k as int] == j);
                } else {
                    if after.contains(j) {
                        let m = choose|m: int| 0 <= m < after.len() && after[m] == j;
                        assert(before[m] == j);
                    }
                    if before.contains(j) {
                        let m = choose|m: int| 0 <= m < before.len() && before[m] == j;
                        assert(after[m] == j);
                    }
                }
            }
            k = k + 1;
        }
        assert(chosen.take(chosen.len() as int) =~= chosen);
        assert(ps.take(ps.len() as int) =~= ps);
        self.plan = FillPlan { statuses, planned_bytes, planned_footprint, capacity };
        assert(self.chosen() == chosen);
        assert(self.plan.statuses@ =~= Seq::new(
            folders.len(),
            |i: int| status_of(folders[i], chosen.contains(i), excluded, existing),
        ));
        assert(self.weights() == weights@);
        assert(self.picks() == ps);
    }

    /// Whether this folder has just been chosen and its subfolders are being
    /// sized up.
    pub open spec fn has_source(self, before: DriveFillState, source: String) -> bool {
        &&& self.source == Some(source)
        &&& self.folders@.len() == 0
        &&& self.excluded@ == Map::<Seq<char>, Seq<char>>::empty()
        &&& self.status is None
        &&& self.is_planned()
        &&& self.measure matches MeasureState::Running { control, done, total }
            && !control.cancelled && !control.paused && done == 0 && total == 0
        &&& self == (DriveFillState {
            source: self.source,
            folders: self.folders,
            excluded: self.excluded,
            status: self.status,
            plan: self.plan,
            measure: self.measure,
            ..before
        })
    }

    /// Picks the folder whose subfolders get distributed, and has them sized
    /// up. Not while anything is going on. Says whether it did.
    pub fn set_source(&mut self, source: String) -> (r: bool)
        ensures
            r == !(old(self).measure is Running || old(self).copy is Some),
            !r ==> *final(self) == *old(self),
            r ==> final(self).has_source(*old(self), source),
    {
        if self.is_busy() {
            return false;
        }
        self.source = Some(source);
        self.folders = Vec::new();
        self.excluded = PathSet::new();
        self.status = None;
        self.replan();
        self.measure = MeasureState::Running { control: JobControl::default(), done: 0, total: 0 };
        true
    }

    /// Has the sizing up stopped.
    pub fn cancel_measure(&mut self)
        ensures
            *final(self) == (DriveFillState { measure: final(self).measure, ..*old(self) }),
            match old(self).measure {
                MeasureState::Idle => final(self).measure is Idle,
                MeasureState::Running { control, done, total } => {
                    &&& final(self).measure matches MeasureState::Running {
                        control: c,
                        done: d,
                        total: t,
                    }
                    &&& c.cancelled && c.paused == control.paused
                    &&& d == done && t == total
                },
            },
    {
        let mut measure: MeasureState = MeasureState::Idle;
        std::mem::swap(&mut measure, &mut self.measure);
        if let MeasureState::Running { control, done, total } = measure {
            let mut control: JobControl = control;
            control.cancel();
            self.measure = MeasureState::Running { control, done, total };
        }
    }

    /// Whether the target, if there is one, has just been asked about, and
    /// nothing else has changed.
    pub open spec fn has_asked(self, before: DriveFillState, request: Option<SpaceRequest>) -> bool {
        match self.target {
            None => request is None && self == before,
            Some(target) => {
                &&& request matches Some(q)
                &&& q.target == target
                &&& self.reading == Some(q.ticket)
                &&& self.tickets == q.ticket
                &&& q.ticket == control::next_ticket(before.tickets)
                &&& self == (DriveFillState {
                    reading: self.reading,
                    tickets: self.tickets,
                    ..before
                })
            },
        }
    }

    /// Has the target's free space and existing folders read again; the plan
    /// is rebuilt once they arrive.
    pub fn refresh_space(&mut self) -> (r: Option<SpaceRequest>)
        ensures
            final(self).has_asked(*old(self), r),
    {
        match &self.target {
            None => None,
            Some(target) => {
                let target: String = target.clone();
                self.tickets = self.tickets.wrapping_add(1);
                self.reading = Some(self.tickets);
                Some(SpaceRequest { ticket: self.tickets, target })
            },
        }
    }

    /// Picks the folder the others are copied into, and asks about its free
    /// space. Not while copying.
    pub fn set_target(&mut self, target: String) -> (r: Option<SpaceRequest>)
        ensures
            old(self).copy is Some ==> r is None && *final(self) == *old(self),
            old(self).copy is None ==> final(self).target == Some(target) && final(self).has_asked(
                (DriveFillState { target: Some(target), ..*old(self) }),
                r,
            ),
    {
        if self.is_copying() {
            return None;
        }
        self.target = Some(target);
        self.refresh_space()
    }

    /// Ticks a folder or unticks it.
    pub fn set_excluded(&mut self, index: usize, excluded: bool)
        ensures
            index >= old(self).folders@.len() ==> *final(self) == *old(self),
            index < old(self).folders@.len() ==> {
                &&& final(self).is_planned()
                &&& final(self).excluded@ == (if excluded {
                    sets::with_path(old(self).excluded@, old(self).folders@[index as int].path@)
                } else {
                    old(self).excluded@.remove(
                        paths::path_id(old(self).folders@[index as int].path@),
                    )
                })
                &&& *final(self) == (DriveFillState {
                    excluded: final(self).excluded,
                    plan: final(self).plan,
                    ..*old(self)
                })
            },
    {
        if index >= self.folders.len() {
            return;
        }
        if excluded {
            let path: String = self.folders[index].path.clone();
            self.excluded.insert(path);
        } else {
            self.excluded.remove(self.folders[index].path.as_str());
        }
        self.replan();
    }

    /// Indices into `folders` in the overview table's current sort order.
    pub fn sorted_indices(&self) -> (r: Vec<usize>)
        ensures
            sorting::positions(r@) == (match self.sort {
                None => Seq::new(self.folders@.len(), |i: int| i),
                Some((column, direction)) => sorting::stable_order(
                    self.folders@.len(),
                    row_order(self.folders@, self.plan.statuses@, column, direction),
                ),
            }),
    {
        let n: usize = self.folders.len();
        let folders: &Vec<RootFolder> = &self.folders;
        let statuses: &Vec<FolderStatus> = &self.plan.statuses;
        match self.sort {
            None => {
                let mut order: Vec<usize> = Vec::new();
                let mut i: usize = 0;
                while i < n
                    invariant
                        i <= n,
                        order@.len() == i,
                        forall|k: int| 0 <= k < i ==> #[trigger] order@[k] == k,
                    decreases n - i,
                {
                    order.push(i);
                    i = i + 1;
                }
                assert(sorting::positions(order@) =~= Seq::new(n as nat, |i: int| i));
                order
            },
            Some((column, direction)) => {
                let mut names: Vec<String> = Vec::new();
                let mut ranks: Vec<u8> = Vec::new();
                let mut i: usize = 0;
                while i < n
                    invariant
                        i <= n,
                        n == folders@.len(),
                        names@.len() == i,
                        ranks@.len() == i,
                        forall|k: int|
                            0 <= k < i ==> (#[trigger] names@[k])@ == text::lowercase(
                                folders@[k].name@,
                            ),
                        forall|k: int|
                            0 <= k < i ==> #[trigger] ranks@[k] == status_rank(statuses@, k),
                    decreases n - i,
                {
                    names.push(text::to_lowercase(folders[i].name.as_str()));
                    let rank: u8 = if i < statuses.len() {
                        match statuses[i] {
                            FolderStatus::Planned => 0,
                            FolderStatus::DoesNotFit => 1,
                            FolderStatus::ExistsInTarget => 2,
                            FolderStatus::Excluded => 3,
                        }
                    } else {
                        255
                    };
                    ranks.push(rank);
                    i = i + 1;
                }
                let in_column = |i: usize, j: usize| -> (b: bool)
                    requires
                        i < n,
                        j < n,
                        n == folders@.len(),
                        n == names@.len(),
                        n == ranks@.len(),
                        forall|k: int|
                            0 <= k < n ==> (#[trigger] names@[k])@ == text::lowercase(
                                folders@[k].name@,
                            ),
                        forall|k: int|
                            0 <= k < n ==> #[trigger] ranks@[k] == status_rank(statuses@, k),
                    ensures
                        b == row_order(folders@, statuses@, column, direction)(i as int, j as int),
                    {
                        let (a, c): (usize, usize) = match direction {
                            SortDirection::Asc => (i, j),
                            SortDirection::Desc => (j, i),
                        };
                        match column {
                            FolderSortColumn::Name => text::is_text_le(
                                names[a].as_str(),
                                names[c].as_str(),
                            ),
                            FolderSortColumn::Size => folders[a].size <= folders[c].size,
                            FolderSortColumn::Files => folders[a].file_count
                                <= folders[c].file_count,
                            FolderSortColumn::Modified => folders[a].modified
                                <= folders[c].modified,
                            FolderSortColumn::Created => folders[a].created <= folders[c].created,
                            FolderSortColumn::Status => ranks[a] <= ranks[c],
                        }
                    };
                proof {
                    lemma_row_order(folders@, statuses@, column, direction);
                }
                sorting::sort_positions(
                    n,
                    in_column,
                    Ghost(row_order(folders@, statuses@, column, direction)),
                )
            },
        }
    }

    /// Has every planned folder copied into the target: gives the folders and
    /// where they go. Not without a target or a planned folder, nor while
    /// anything is going on.
    pub fn start_copy(&mut self) -> (r: Option<Vec<(String, String)>>)
        ensures
            r is Some <==> (old(self).target is Some && old(self).measure is Idle && old(self).copy
                is None && planned_in(old(self).plan.statuses@) > 0),
            r is None ==> *final(self) == *old(self),
            r matches Some(jobs) ==> {
                &&& text_pairs(jobs@) == copy_pairs(
                    old(self).folders@,
                    old(self).plan.statuses@,
                    old(self).target->0@,
                    if old(self).folders@.len() <= old(self).plan.statuses@.len() {
                        old(self).folders@.len()
                    } else {
                        old(self).plan.statuses@.len()
                    },
                )
                &&& final(self).copy matches Some(job)
                &&& job.is_fresh(old(self).plan.planned_bytes)
                &&& final(self).status is None
                &&& *final(self) == (DriveFillState {
                    status: final(self).status,
                    copy: final(self).copy,
                    ..*old(self)
                })
            },
    {
        let busy: bool = self.is_busy();
        let jobs: Vec<(String, String)> = match &self.target {
            None => return None,
            Some(target) => {
                if busy || self.plan.planned_count() == 0 {
                    return None;
                }
                let n: usize = if self.folders.len() <= self.plan.statuses.len() {
                    self.folders.len()
                } else {
                    self.plan.statuses.len()
                };
                let mut jobs: Vec<(String, String)> = Vec::new();
                let mut i: usize = 0;
                while i < n
                    invariant
                        i <= n,
                        n <= self.folders@.len(),
                        n <= self.plan.statuses@.len(),
                        text_pairs(jobs@) =~= copy_pairs(
                            self.folders@,
                            self.plan.statuses@,
                            target@,
                            i as nat,
                        ),
                    decreases n - i,
                {
                    if self.plan.statuses[i] == FolderStatus::Planned {
                        let ghost before = jobs@;
                        jobs.push(
                            (
                                self.folders[i].path.clone(),
                                paths::join_paths(target.as_str(), self.folders[i].name.as_str()),
                            ),
                        );
                        assert(text_pairs(jobs@) =~= text_pairs(before).push(
                            (jobs@.last().0@, jobs@.last().1@),
                        ));
                    }
                    i = i + 1;
                }
                jobs
            },
        };
        self.status = None;
        self.copy = Some(CopyJob::new(self.plan.planned_bytes));
        Some(jobs)
    }

    /// Takes the free space and the names of the existing folders of the
    /// target, asked for under this number. An answer that is no longer wanted
    /// is dropped. Says whether anything changed.
    pub fn take_space(
        &mut self,
        ticket: u64,
        space: Option<DiskSpace>,
        existing: Vec<String>,
    ) -> (r: bool)
        ensures
            r == (old(self).reading == Some(ticket)),
            !r ==> *final(self) == *old(self),
            r ==> {
                &&& final(self).space == space
                &&& final(self).existing_in_target@ == text::texts(existing@).to_set()
                &&& final(self).reading is None
                &&& final(self).is_planned()
                &&& *final(self) == (DriveFillState {
                    space: final(self).space,
                    existing_in_target: final(self).existing_in_target,
                    reading: final(self).reading,
                    plan: final(self).plan,
                    ..*old(self)
                })
            },
    {
        let wanted: bool = match self.reading {
            Some(t) => t == ticket,
            None => false,
        };
        if wanted {
            let mut names: TextSet = TextSet::new();
            let ghost all = existing@;
            for name in it: existing
                invariant
                    it.seq() == all,
                    names@ == text::texts(all.take(it.index() as int)).to_set(),
            {
                let ghost before = text::texts(all.take(it.index() as int));
                let ghost after = text::texts(all.take(it.index() + 1));
                assert(after =~= before.push(name@));
                assert(after.to_set() =~= before.to_set().insert(name@)) by {
                    assert forall|t: Seq<char>| after.to_set().contains(t) == before.to_set().insert(
                        name@,
                    ).contains(t) by {
                        if before.contains(t) {
                            let k = choose|k: int| 0 <= k < before.len() && before[k] == t;
                            assert(after[k] == t);
                        }
                        assert(after[before.len() as int] == name@);
                    }
                }
                names.insert(name);
            }
            assert(all.take(all.len() as int) =~= all);
            self.space = space;
            self.existing_in_target = names;
            self.reading = None;
            self.replan();
        }
        wanted
    }

    /// Takes what sizing up reports. When it is over, the folders are shown
    /// largest first and the plan is made. Says whether anything changed.
    pub fn take_measure_event(&mut self, event: MeasureEvent) -> (r: bool)
        ensures
            r == (old(self).measure is Running),
            !r ==> *final(self) == *old(self),
            r ==> match event {
                MeasureEvent::Progress { done, total } => {
                    &&& final(self).measure == (MeasureState::Running {
                        control: old(self).measure->control,
                        done,
                        total,
                    })
                    &&& *final(self) == (DriveFillState {
                        measure: final(self).measure,
                        ..*old(self)
                    })
                },
                MeasureEvent::Error(msg) => *final(self) == (DriveFillState {
                    status: Some(msg),
                    ..*old(self)
                }),
                MeasureEvent::Done(folders) => {
                    &&& final(self).folders@ == sorting::sorted(
                        folders@,
                        |a: RootFolder, b: RootFolder| a.size >= b.size,
                    )
                    &&& final(self).measure is Idle
                    &&& final(self).is_planned()
                    &&& *final(self) == (DriveFillState {
                        folders: final(self).folders,
                        measure: final(self).measure,
                        plan: final(self).plan,
                        ..*old(self)
                    })
                },
            },
    {
        if !self.is_measuring() {
            return false;
        }
        match event {
            MeasureEvent::Progress { done, total } => {
                let mut measure: MeasureState = MeasureState::Idle;
                std::mem::swap(&mut measure, &mut self.measure);
                if let MeasureState::Running { control, .. } = measure {
                    self.measure = MeasureState::Running { control, done, total };
                }
            },
            MeasureEvent::Error(msg) => {
                self.status = Some(msg);
            },
            MeasureEvent::Done(folders) => {
                self.folders = largest_first(folders);
                self.measure = MeasureState::Idle;
                self.replan();
            },
        }
        true
    }

    /// Takes what a copy reports. When it is over, gives what is left of it:
    /// see [`DriveFillState::finish_copy`].
    pub fn take_copy_event(&mut self, event: CopyEvent) -> (r: Option<FinishedCopy>)
        ensures
            old(self).copy is None ==> r is None && *final(self) == *old(self),
            *final(self) == (DriveFillState { copy: final(self).copy, ..*old(self) }),
            old(self).copy matches Some(job) ==> match event {
                CopyEvent::Done { aborted, usage } => {
                    &&& final(self).copy is None
                    &&& r == Some(
                        (FinishedCopy {
                            cancelled: job.control.cancelled,
                            files_copied: job.files_copied,
                            errors: job.errors,
                            entries: job.entries,
                            aborted,
                            usage,
                        }),
                    )
                },
                _ => r is None && final(self).copy is Some,
            },
            old(self).copy matches Some(a) ==> (final(self).copy matches Some(b) ==> {
                &&& b.control == a.control && b.clock == a.clock && b.total_bytes == a.total_bytes
                &&& b.current == (match event {
                    CopyEvent::FileStarted { path } => Some(path),
                    _ => a.current,
                })
                &&& b.bytes_done == (match event {
                    CopyEvent::Progress { bytes_done } => bytes_done,
                    _ => a.bytes_done,
                })
                &&& match event {
                    CopyEvent::FileCopied { hash_hex, file } => b.files_copied == control::one_more(
                        a.files_copied,
                    ) && b.entries@ == a.entries@.push((hash_hex, file)),
                    _ => b.files_copied == a.files_copied && b.entries == a.entries,
                }
                &&& match event {
                    CopyEvent::Error(msg) => b.errors@ == a.errors@.push(msg),
                    _ => b.errors == a.errors,
                }
            }),
    {
        let mut job: CopyJob = match self.copy.take() {
            Some(job) => job,
            None => return None,
        };
        match event {
            CopyEvent::FileStarted { path } => {
                job.current = Some(path);
            },
            CopyEvent::Progress { bytes_done } => {
                job.bytes_done = bytes_done;
            },
            CopyEvent::FileCopied { hash_hex, file } => {
                job.files_copied = job.files_copied.saturating_add(1);
                job.entries.push((hash_hex, file));
            },
            CopyEvent::Error(msg) => {
                job.errors.push(msg);
            },
            CopyEvent::Done { aborted, usage } => {
                return Some(
                    FinishedCopy {
                        cancelled: job.control.is_cancelled(),
                        files_copied: job.files_copied,
                        errors: job.errors,
                        entries: job.entries,
                        aborted,
                        usage,
                    },
                );
            },
        }
        self.copy = Some(job);
        None
    }

    /// Says how a copy went, once its files have been added to the
    /// reverse-search index or that has failed, and asks about the target
    /// again.
    pub fn finish_copy(
        &mut self,
        cancelled: bool,
        files_copied: usize,
        errors: &Vec<String>,
        aborted: Option<String>,
        indexed: Result<(), String>,
    ) -> (r: Option<SpaceRequest>)
        ensures
            final(self).status matches Some(s) && s@ == copy_status(
                match aborted {
                    Some(reason) => Some(reason@),
                    None => None,
                },
                cancelled,
                files_copied as nat,
                match indexed {
                    Ok(()) => None,
                    Err(e) => Some(e@),
                },
                text::texts(errors@),
            ),
            final(self).has_asked(
                (DriveFillState { status: final(self).status, ..*old(self) }),
                r,
            ),
    {
        let start: String = match aborted {
            Some(reason) => "Stopped: ".to_owned().concat(reason.as_str()).concat(" Copied "),
            None => if cancelled {
                "Cancelled. Copied ".to_owned()
            } else {
                "Copied ".to_owned()
            },
        };
        let msg: String = start.concat(text::decimal_text(files_copied as u128).as_str()).concat(
            " file(s)",
        );
        let msg: String = match indexed {
            Ok(()) => msg.concat(" and added them to the reverse-search index."),
            Err(e) => msg.concat(
                ", but saving the reverse-search index failed: ".to_owned().concat(
                    e.as_str(),
                ).as_str(),
            ),
        };
        let end: String = if errors.len() == 0 {
            "".to_owned()
        } else {
            assert(text::texts(errors@)[0] == errors@[0]@);
            " ".to_owned().concat(text::decimal_text(errors.len() as u128).as_str()).concat(
                " error(s); first: ",
            ).concat(errors[0].as_str())
        };
        self.status = Some(msg.concat(end.as_str()));
        self.refresh_space()
    }
}

/// Sorts the folders largest first, those of one size in their own order.
fn largest_first(folders: Vec<RootFolder>) -> (r: Vec<RootFolder>)
    ensures
        r@ == sorting::sorted(folders@, |a: RootFolder, b: RootFolder| a.size >= b.size),
{
    let n: usize = folders.len();
    let list: &Vec<RootFolder> = &folders;
    let ghost le = |i: int, j: int| list@[i].size >= list@[j].size;
    let larger = |i: usize, j: usize| -> (b: bool)
        requires
            i < n,
            j < n,
            n == list@.len(),
        ensures
            b == (list@[i as int].size >= list@[j as int].size),
        { list[i].size >= list[j].size };
    let order = sorting::sort_positions(n, larger, Ghost(le));
    proof {
        let s = sorting::positions(order@);
        assert forall|a: int| 0 <= a < order@.len() implies #[trigger] order@[a]
            < list@.len() by {
            assert(s[a] == order@[a]);
        }
        assert forall|a: int, b: int| 0 <= a < b < order@.len() implies #[trigger] order@[a]
            != #[trigger] order@[b] by {
            assert(s[a] == order@[a] && s[b] == order@[b]);
            assert(sorting::comes_before(le, s[a], s[b]));
        }
        let pred = |a: RootFolder, b: RootFolder| a.size >= b.size;
        assert(le =~= (|i: int, j: int| pred(list@[i], list@[j])));
    }
    sorting::rearrange(folders, &order)
}

/// Choosing a source clears what was known of the one before, and has the subfolders
/// of the new one sized up; the target stays.
pub proof fn law_sources_are_sized_up(
    after: DriveFillState,
    before: DriveFillState,
    source: String,
)
    requires
        after.has_source(before, source),
    ensures
        after.source == Some(source),
        after.folders@.len() == 0,
        forall|id: Seq<char>| !after.excluded@.contains_key(id),
        after.status is None,
        after.measure matches MeasureState::Running { control, done, total } && !control.cancelled
            && !control.paused && done == 0 && total == 0,
        after.plan.statuses@.len() == 0,
        after.target == before.target,
        after.space == before.space,
        after.reserve_mb == before.reserve_mb,
        after.copy == before.copy,
{
}

/// The target is asked about under a new number, so that an answer to an earlier
/// question is told apart; without a target nothing is asked.
pub proof fn law_target_questions_are_numbered(
    after: DriveFillState,
    before: DriveFillState,
    request: Option<SpaceRequest>,
)
    requires
        after.has_asked(before, request),
    ensures
        after.target == before.target,
        after.folders == before.folders,
        after.space == before.space,
        before.target is None ==> request is None && after == before,
        before.target matches Some(target) ==> {
            &&& request matches Some(q)
            &&& q.target == target
            &&& after.reading == Some(q.ticket)
            &&& q.ticket == after.tickets
            &&& q.ticket != before.tickets
        },
{
}

/// A copy starts from the beginning.
pub proof fn law_copies_start_from_the_beginning(job: CopyJob, total_bytes: u64)
    requires
        job.is_fresh(total_bytes),
    ensures
        job.total_bytes == total_bytes,
        job.bytes_done == 0,
        job.files_copied == 0,
        job.errors@.len() == 0,
        job.entries@.len() == 0,
        job.current is None,
        !job.control.cancelled,
        !job.control.paused,
        job.clock.pause_start() is None,
        job.clock.pauses() == 0,
{
}

/// Pausing or cancelling a copy leaves what it has done.
pub proof fn law_copies_keep_their_work(after: CopyJob, before: CopyJob)
    requires
        after.same_work(before),
    ensures
        after.total_bytes == before.total_bytes,
        after.bytes_done == before.bytes_done,
        after.files_copied == before.files_copied,
        after.errors == before.errors,
        after.current == before.current,
        after.entries == before.entries,
{
}

/// A new plan changes nothing but the plan.
pub proof fn law_replanning_keeps_the_rest(after: DriveFillState, before: DriveFillState)
    requires
        after.same_but_plan(before),
    ensures
        after.source == before.source,
        after.target == before.target,
        after.folders == before.folders,
        after.excluded == before.excluded,
        after.space == before.space,
        after.reserve_mb == before.reserve_mb,
        after.copy == before.copy,
        after.measure == before.measure,
        after.status == before.status,
{
}

} // verus!
