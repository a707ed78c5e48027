//! "Flatten": move every file out of a folder's subfolders into the folder
//! itself, renaming name clashes (see [`plan::plan_flatten`]), optionally
//! removing the emptied subfolders, with a one-step undo.
//!
//! The state here decides; walking folders and moving files is up to the
//! caller, which carries out the requests that the state makes and hands back
//! what came of them.

use crate::control::{self, ActiveClock, JobControl};
use crate::paths;
use crate::text;
use plan::PlannedMove;
use vstd::prelude::*;

pub mod plan;

verus! {

/// What comes of carrying out moves.
#[derive(Debug, PartialEq)]
pub enum MoveEvent {
    Started { from: String },
    Moved { from: String, to: String },
    Failed(String),
    Finished { removed_dirs: usize },
}

/// How one move is to be carried out.
#[derive(Debug, PartialEq)]
pub enum MoveStep {
    /// Not at all: the destination exists and is never overwritten.
    Refuse(String),
    /// By renaming, after making the folder if one is given.
    Rename { make_folder: Option<String> },
}

/// Decides how a move is carried out. With `create_parents`, missing
/// destination folders are created (needed by undo).
pub fn decide_move(to: &str, to_exists: bool, create_parents: bool) -> (r: MoveStep)
    ensures
        match r {
            MoveStep::Refuse(m) => to_exists && m@ == to@ + " already exists"@,
            MoveStep::Rename { make_folder } => {
                &&& !to_exists
                &&& match make_folder {
                    Some(p) => create_parents && paths::parent(to@) == Some(p@),
                    None => !create_parents || paths::parent(to@) is None,
                }
            },
        },
{
    if to_exists {
        MoveStep::Refuse(to.to_owned().concat(" already exists"))
    } else if create_parents {
        MoveStep::Rename { make_folder: paths::parent_of(to) }
    } else {
        MoveStep::Rename { make_folder: None }
    }
}

/// What a move that was tried has come to.
pub fn move_result(from: String, to: String, outcome: Result<(), String>) -> (r: MoveEvent)
    ensures
        match outcome {
            Ok(()) => r == (MoveEvent::Moved { from, to }),
            Err(e) => r matches MoveEvent::Failed(m) && m@ == "Couldn't move "@ + from@ + ": "@
                + e@,
        },
{
    match outcome {
        Ok(()) => MoveEvent::Moved { from, to },
        Err(e) => MoveEvent::Failed(
            "Couldn't move ".to_owned().concat(from.as_str()).concat(": ").concat(e.as_str()),
        ),
    }
}

/// A run of moves.
#[derive(Debug)]
pub struct MoveJob {
    pub control: JobControl,
    pub clock: ActiveClock,
    pub undo: bool,
    pub total: usize,
    pub done: usize,
    pub current: Option<String>,
    /// Moves that went through, in order, for undo.
    pub completed: Vec<(String, String)>,
}

impl MoveJob {
    /// A job that has not moved anything yet.
    fn new(total: usize, undo: bool) -> (r: Self)
        ensures
            r.is_fresh(total, undo),
    {
        MoveJob {
            control: JobControl::default(),
            clock: ActiveClock::start(),
            undo,
            total,
            done: 0,
            current: None,
            completed: Vec::new(),
        }
    }

    /// Whether the job has not moved anything yet.
    pub open spec fn is_fresh(self, total: usize, undo: bool) -> bool {
        &&& !self.control.cancelled && !self.control.paused
        &&& self.clock.pause_start() is None && self.clock.pauses() == 0
        &&& self.undo == undo
        &&& self.total == total
        &&& self.done == 0
        &&& self.current is None
        &&& self.completed@.len() == 0
    }

    /// The time that is left after running for `elapsed`.
    pub fn eta(&self, elapsed: u64) -> (r: Option<u128>)
        ensures
            match r {
                Some(t) => control::remaining_time(
                    self.done as u64,
                    self.total as u64,
                    elapsed,
                ) == Some(t as nat),
                None => control::remaining_time(self.done as u64, self.total as u64, elapsed)
                    is None,
            },
    {
        control::estimate_remaining(self.done as u64, self.total as u64, elapsed)
    }

    /// Whether the job is paused.
    pub fn is_paused(&self) -> (r: bool)
        ensures
            r == self.control.paused,
    {
        self.control.is_paused()
    }

    /// Pauses the job or lets it go on, and its clock with it.
    pub fn toggle_pause(&mut self)
        ensures
            final(self).control.paused == !old(self).control.paused,
            final(self).control.cancelled == old(self).control.cancelled,
            final(self).clock.pause_start() is Some == final(self).control.paused,
            final(self).clock.follows(old(self).clock, final(self).control.paused),
            final(self).undo == old(self).undo,
            final(self).total == old(self).total,
            final(self).done == old(self).done,
            final(self).current == old(self).current,
            final(self).completed == old(self).completed,
    {
        let paused: bool = !self.control.is_paused();
        self.control.set_paused(paused);
        if paused {
            self.clock.pause();
        } else {
            self.clock.resume();
        }
    }

    /// Cancels the job; its clock goes on.
    pub fn cancel(&mut self)
        ensures
            final(self).control.cancelled,
            final(self).control.paused == old(self).control.paused,
            final(self).clock.pause_start() is None,
            final(self).clock.follows(old(self).clock, false),
            final(self).undo == old(self).undo,
            final(self).total == old(self).total,
            final(self).done == old(self).done,
            final(self).current == old(self).current,
            final(self).completed == old(self).completed,
    {
        self.control.cancel();
        self.clock.resume();
    }

    /// Whether the job is cancelled.
    pub fn is_cancelled(&self) -> (r: bool)
        ensures
            r == self.control.cancelled,
    {
        self.control.is_cancelled()
    }
}

/// A plan that is wanted: for which folder, and the number of the request.
#[derive(Debug, PartialEq)]
pub struct PlanRequest {
    pub ticket: u64,
    pub root: String,
}

/// Moves that are to be carried out.
#[derive(Debug, PartialEq)]
pub struct MoveRequest {
    pub moves: Vec<(String, String)>,
    pub create_parents: bool,
    /// Empty folders under this one are deleted afterwards, deepest first.
    pub remove_empty_under: Option<String>,
}

/// The moves of a plan.
pub open spec fn moves_of(plan: Seq<PlannedMove>) -> Seq<(String, String)> {
    plan.map_values(|m: PlannedMove| (m.from, m.to))
}

/// The moves that take back the given ones: from the last to the first, each
/// the other way round.
pub open spec fn taken_back<T>(moves: Seq<(T, T)>) -> Seq<(T, T)>
    decreases moves.len(),
{
    if moves.len() == 0 {
        seq![]
    } else {
        seq![(moves.last().1, moves.last().0)] + taken_back(moves.drop_last())
    }
}

/// How many moves of the plan rename their file.
pub open spec fn renamed_in(plan: Seq<PlannedMove>) -> nat
    decreases plan.len(),
{
    if plan.len() == 0 {
        0
    } else {
        renamed_in(plan.drop_last()) + (if plan.last().renamed {
            1nat
        } else {
            0nat
        })
    }
}

/// The state of flattening.
#[derive(Debug)]
pub struct FlattenState {
    pub root: Option<String>,
    pub remove_empty_dirs: bool,
    /// Preview of what "Move" will do; recomputed whenever the folder
    /// changes or a run finishes.
    pub plan: Vec<PlannedMove>,
    /// The number of the plan that is being made.
    pub planning: Option<u64>,
    /// The number of the last plan asked for.
    pub tickets: u64,
    pub job: Option<MoveJob>,
    /// The moves the last completed run made, which "Undo" reverses.
    pub last_run: Vec<(String, String)>,
    pub errors: Vec<String>,
    pub status: Option<String>,
}

impl Default for FlattenState {
    fn default() -> (r: Self)
        ensures
            r.root is None,
            r.remove_empty_dirs,
            r.plan@.len() == 0,
            r.planning is None,
            r.tickets == 0,
            r.job is None,
            r.last_run@.len() == 0,
            r.errors@.len() == 0,
            r.status is None,
    {
        FlattenState {
            root: None,
            remove_empty_dirs: true,
            plan: Vec::new(),
            planning: None,
            tickets: 0,
            job: None,
            last_run: Vec::new(),
            errors: Vec::new(),
            status: None,
        }
    }
}

/// A copy of the moves.
fn copy_moves(moves: &Vec<PlannedMove>) -> (r: Vec<(String, String)>)
    ensures
        r@ == moves_of(moves@),
{
    let mut out: Vec<(String, String)> = Vec::new();
    let mut i: usize = 0;
    while i < moves.len()
        invariant
            i <= moves@.len(),
            out@ =~= moves_of(moves@.take(i as int)),
        decreases moves@.len() - i,
    {
        assert(moves@.take(i + 1) =~= moves@.take(i as int).push(moves@[i as int]));
        out.push((moves[i].from.clone(), moves[i].to.clone()));
        i = i + 1;
    }
    assert(moves@.take(moves@.len() as int) =~= moves@);
    out
}

/// The moves that take back the given ones.
fn take_back(moves: &Vec<(String, String)>) -> (r: Vec<(String, String)>)
    ensures
        r@ == taken_back(moves@),
{
    let mut out: Vec<(String, String)> = Vec::new();
    let mut i: usize = moves.len();
    assert(moves@.take(moves@.len() as int) =~= moves@);
    while i > 0
        invariant
            i <= moves@.len(),
            out@ + taken_back(moves@.take(i as int)) =~= taken_back(moves@),
        decreases i,
    {
        assert(moves@.take(i as int).drop_last() =~= moves@.take(i - 1));
        i = i - 1;
        out.push((moves[i].1.clone(), moves[i].0.clone()));
    }
    assert(moves@.take(0) =~= seq![]);
    out
}

/// What the state says once a run is over.
pub open spec fn run_status(
    undo: bool,
    cancelled: bool,
    moved: nat,
    removed_dirs: nat,
    failures: nat,
) -> Seq<char> {
    (if cancelled {
        "Cancelled. "@
    } else {
        ""@
    }) + (if undo {
        "Undo moved "@ + text::decimal(moved) + " file(s) back."@
    } else {
        "Moved "@ + text::decimal(moved) + " file(s) and removed "@ + text::decimal(removed_dirs)
            + " empty folder(s)."@
    }) + (if failures == 0 {
        ""@
    } else {
        " "@ + text::decimal(failures) + " failed."@
    })
}

fn make_run_status(
    undo: bool,
    cancelled: bool,
    moved: usize,
    removed_dirs: usize,
    failures: usize,
) -> (r: String)
    ensures
        r@ == run_status(
            undo,
            cancelled,
            moved as nat,
            removed_dirs as nat,
            failures as nat,
        ),
{
    let start: String = if cancelled {
        "Cancelled. ".to_owned()
    } else {
        "".to_owned()
    };
    let middle: String = if undo {
        "Undo moved ".to_owned().concat(text::decimal_text(moved as u128).as_str()).concat(
            " file(s) back.",
        )
    } else {
        "Moved ".to_owned().concat(text::decimal_text(moved as u128).as_str()).concat(
            " file(s) and removed ",
        ).concat(text::decimal_text(removed_dirs as u128).as_str()).concat(" empty folder(s).")
    };
    let end: String = if failures == 0 {
        "".to_owned()
    } else {
        " ".to_owned().concat(text::decimal_text(failures as u128).as_str()).concat(" failed.")
    };
    start.concat(middle.as_str()).concat(end.as_str())
}

impl FlattenState {
    /// Whether a plan is being made.
    pub fn is_planning(&self) -> (r: bool)
        ensures
            r == self.planning is Some,
    {
        self.planning.is_some()
    }

    /// Whether moves are being carried out.
    pub fn is_running(&self) -> (r: bool)
        ensures
            r == self.job is Some,
    {
        self.job.is_some()
    }

    /// Whether the planned moves can be carried out.
    pub fn can_start(&self) -> (r: bool)
        ensures
            r == (self.plan@.len() > 0 && self.job is None && self.planning is None),
    {
        self.plan.len() > 0 && !self.is_running() && !self.is_planning()
    }

    /// Whether the last run can be undone.
    pub fn can_undo(&self) -> (r: bool)
        ensures
            r == (self.last_run@.len() > 0 && self.job is None),
    {
        self.last_run.len() > 0 && !self.is_running()
    }

    /// Whether anything is going on.
    pub fn needs_polling(&self) -> (r: bool)
        ensures
            r == (self.planning is Some || self.job is Some),
    {
        self.is_planning() || self.is_running()
    }

    /// All that a new plan leaves alone.
    pub open spec fn same_but_plan(self, other: FlattenState) -> bool {
        &&& self.root == other.root
        &&& self.remove_empty_dirs == other.remove_empty_dirs
        &&& self.job == other.job
        &&& self.last_run == other.last_run
        &&& self.errors == other.errors
        &&& self.status == other.status
    }

    /// Whether a plan for the root, if there is one, has just been asked for,
    /// under a number of its own.
    pub open spec fn has_asked(self, before: FlattenState, request: Option<PlanRequest>) -> bool {
        &&& self.plan@.len() == 0
        &&& match self.root {
            None => request is None && self.planning is None && self.tickets == before.tickets,
            Some(root) => {
                &&& request is Some
                &&& request->0.root == root
                &&& request->0.ticket == control::next_ticket(before.tickets)
                &&& self.planning == Some(request->0.ticket)
                &&& self.tickets == request->0.ticket
            },
        }
    }

    /// Has the preview recomputed: drops the plan and whatever plan is being
    /// made.
    pub fn replan(&mut self) -> (r: Option<PlanRequest>)
        ensures
            final(self).same_but_plan(*old(self)),
            final(self).has_asked(*old(self), r),
    {
        self.planning = None;
        self.plan = Vec::new();
        match &self.root {
            None => None,
            Some(root) => {
                let root: String = root.clone();
                self.tickets = self.tickets.wrapping_add(1);
                self.planning = Some(self.tickets);
                Some(PlanRequest { ticket: self.tickets, root })
            },
        }
    }

    /// Whether this folder has just been chosen and its plan asked for.
    pub open spec fn has_chosen(
        self,
        before: FlattenState,
        root: String,
        request: Option<PlanRequest>,
    ) -> bool {
        &&& self.root == Some(root)
        &&& self.has_asked(before, request)
        &&& self.status is None
        &&& self.errors@.len() == 0
        &&& self.job is None
        &&& self.remove_empty_dirs == before.remove_empty_dirs
        &&& if before.root is Some && paths::same_path(before.root->0@, root@) {
            self.last_run == before.last_run
        } else {
            self.last_run@.len() == 0
        }
    }

    /// Chooses the folder to flatten and asks for its plan. Not while moves
    /// are being carried out. What the last run did can only be taken back as
    /// long as the folder stays the same.
    pub fn set_root(&mut self, root: String) -> (r: Option<PlanRequest>)
        ensures
            old(self).job is Some ==> r is None && *final(self) == *old(self),
            old(self).job is None ==> final(self).has_chosen(*old(self), root, r),
    {
        if self.is_running() {
            return None;
        }
        let same: bool = match &self.root {
            Some(r) => paths::are_same_path(r.as_str(), root.as_str()),
            None => false,
        };
        if !same {
            self.last_run = Vec::new();
        }
        self.root = Some(root);
        self.status = None;
        self.errors = Vec::new();
        self.replan()
    }

    /// Takes the plan that was asked for under this number; nothing if it was
    /// cancelled. A plan that is no longer wanted is dropped. Says whether
    /// anything changed.
    pub fn take_plan(&mut self, ticket: u64, plan: Option<Vec<PlannedMove>>) -> (r: bool)
        ensures
            final(self).same_but_plan(*old(self)),
            final(self).tickets == old(self).tickets,
            r == (old(self).planning == Some(ticket)),
            !r ==> *final(self) == *old(self),
            r ==> final(self).planning is None && match plan {
                Some(p) => final(self).plan == p,
                None => final(self).plan@.len() == 0,
            },
    {
        let wanted: bool = match self.planning {
            Some(t) => t == ticket,
            None => false,
        };
        if wanted {
            self.planning = None;
            self.plan = match plan {
                Some(p) => p,
                None => Vec::new(),
            };
        }
        wanted
    }

    /// How many files the plan renames.
    pub fn renamed_count(&self) -> (r: usize)
        ensures
            r == renamed_in(self.plan@),
    {
        let mut n: usize = 0;
        let mut i: usize = 0;
        while i < self.plan.len()
            invariant
                i <= self.plan@.len(),
                n <= i,
                n == renamed_in(self.plan@.take(i as int)),
            decreases self.plan@.len() - i,
        {
            assert(self.plan@.take(i + 1).drop_last() =~= self.plan@.take(i as int));
            if self.plan[i].renamed {
                n = n + 1;
            }
            i = i + 1;
        }
        assert(self.plan@.take(self.plan@.len() as int) =~= self.plan@);
        n
    }

    /// All that starting a run leaves alone.
    pub open spec fn same_but_job(self, other: FlattenState) -> bool {
        &&& self.root == other.root
        &&& self.remove_empty_dirs == other.remove_empty_dirs
        &&& self.plan == other.plan
        &&& self.planning == other.planning
        &&& self.tickets == other.tickets
        &&& self.last_run == other.last_run
    }

    fn spawn(&mut self, total: usize, undo: bool)
        ensures
            final(self).same_but_job(*old(self)),
            final(self).job matches Some(j) && j.is_fresh(total, undo),
            final(self).errors@.len() == 0,
            final(self).status is None,
    {
        self.errors = Vec::new();
        self.status = None;
        self.job = Some(MoveJob::new(total, undo));
    }

    /// Has the previewed moves carried out. Not while a run or a plan is
    /// under way, and not without anything to move.
    pub fn start(&mut self) -> (r: Option<MoveRequest>)
        ensures
            r is None <==> (old(self).job is Some || old(self).planning is Some || old(self).plan@.len() == 0),
            r is None ==> *final(self) == *old(self),
            r matches Some(q) ==> {
                &&& final(self).same_but_job(*old(self))
                &&& final(self).job matches Some(j) && j.is_fresh(old(self).plan@.len() as usize, false)
                &&& final(self).errors@.len() == 0
                &&& final(self).status is None
                &&& q.moves@ == moves_of(old(self).plan@)
                &&& !q.create_parents
                &&& q.remove_empty_under == (if old(self).remove_empty_dirs {
                    old(self).root
                } else {
                    None
                })
            },
    {
        if self.is_running() || self.is_planning() || self.plan.len() == 0 {
            return None;
        }
        let moves = copy_moves(&self.plan);
        let remove_empty_under: Option<String> = if self.remove_empty_dirs {
            match &self.root {
                Some(r) => Some(r.clone()),
                None => None,
            }
        } else {
            None
        };
        let total: usize = moves.len();
        self.spawn(total, false);
        Some(MoveRequest { moves, create_parents: false, remove_empty_under })
    }

    /// Has every file the last run moved put back where it came from.
    pub fn undo(&mut self) -> (r: Option<MoveRequest>)
        ensures
            r is None <==> (old(self).job is Some || old(self).last_run@.len() == 0),
            r is None ==> *final(self) == *old(self),
            r matches Some(q) ==> {
                &&& final(self).same_but_job(*old(self))
                &&& final(self).job matches Some(j) && j.is_fresh(
                    old(self).last_run@.len() as usize,
                    true,
                )
                &&& final(self).errors@.len() == 0
                &&& final(self).status is None
                &&& q.moves@ == taken_back(old(self).last_run@)
                &&& q.create_parents
                &&& q.remove_empty_under is None
            },
    {
        if self.is_running() || self.last_run.len() == 0 {
            return None;
        }
        let moves = take_back(&self.last_run);
        proof {
            lemma_taken_back_len(self.last_run@);
        }
        let total: usize = moves.len();
        self.spawn(total, true);
        Some(MoveRequest { moves, create_parents: true, remove_empty_under: None })
    }

    /// Takes what has come of the moves. When the run is over, the state says
    /// so, remembers the moves for undo (an undone run is forgotten) and asks
    /// for a new plan.
    pub fn take_event(&mut self, event: MoveEvent) -> (r: Option<PlanRequest>)
        ensures
            old(self).job is None ==> r is None && *final(self) == *old(self),
            old(self).job is Some ==> match event {
                MoveEvent::Finished { removed_dirs } => {
                    let job = old(self).job->0;
                    &&& final(self).job is None
                    &&& final(self).root == old(self).root
                    &&& final(self).remove_empty_dirs == old(self).remove_empty_dirs
                    &&& final(self).errors == old(self).errors
                    &&& final(self).has_asked(*old(self), r)
                    &&& final(self).status matches Some(s) && s@ == run_status(
                        job.undo,
                        job.control.cancelled,
                        job.completed@.len(),
                        removed_dirs as nat,
                        old(self).errors@.len(),
                    )
                    &&& if job.undo {
                        final(self).last_run@.len() == 0
                    } else {
                        final(self).last_run == job.completed
                    }
                },
                _ => {
                    let a = old(self).job->0;
                    let b = final(self).job->0;
                    &&& r is None
                    &&& final(self).job is Some
                    &&& final(self).same_but_job(*old(self))
                    &&& final(self).status == old(self).status
                    &&& b.control == a.control && b.clock == a.clock && b.undo == a.undo && b.total
                        == a.total
                    &&& match event {
                        MoveEvent::Started { from } => b.current == Some(from) && b.done == a.done
                            && b.completed == a.completed && final(self).errors == old(self).errors,
                        MoveEvent::Moved { from, to } => b.current == a.current && b.done
                            == control::one_more(a.done) && b.completed@
                            == a.completed@.push((from, to)) && final(self).errors == old(self).errors,
                        MoveEvent::Failed(m) => b.current == a.current && b.done == control::one_more(
                            a.done,
                        ) && b.completed == a.completed && final(self).errors@ == old(self).errors@.push(m),
                        MoveEvent::Finished { .. } => true,
                    }
                },
            },
    {
        let mut job: MoveJob = match self.job.take() {
            Some(job) => job,
            None => return None,
        };
        match event {
            MoveEvent::Started { from } => {
                job.current = Some(from);
                self.job = Some(job);
                None
            },
            MoveEvent::Moved { from, to } => {
                job.done = job.done.saturating_add(1);
                job.completed.push((from, to));
                self.job = Some(job);
                None
            },
            MoveEvent::Failed(m) => {
                job.done = job.done.saturating_add(1);
                self.errors.push(m);
                self.job = Some(job);
                None
            },
            MoveEvent::Finished { removed_dirs } => {
                let moved: usize = job.completed.len();
                self.status = Some(
                    make_run_status(
                        job.undo,
                        job.is_cancelled(),
                        moved,
                        removed_dirs,
                        self.errors.len(),
                    ),
                );
                self.last_run = if job.undo {
                    Vec::new()
                } else {
                    job.completed
                };
                self.replan()
            },
        }
    }
}

proof fn lemma_taken_back_len<T>(moves: Seq<(T, T)>)
    ensures
        taken_back(moves).len() == moves.len(),
    decreases moves.len(),
{
    if moves.len() > 0 {
        lemma_taken_back_len(moves.drop_last());
    }
}

/// Undo carries out as many moves as went through, the last one first, each from
/// where the file went to where it came from.
pub proof fn law_undo_goes_backwards<T>(moves: Seq<(T, T)>, i: int)
    requires
        0 <= i < moves.len(),
    ensures
        taken_back(moves).len() == moves.len(),
        taken_back(moves)[i] == (moves[moves.len() - 1 - i].1, moves[moves.len() - 1 - i].0),
    decreases moves.len(),
{
    lemma_taken_back_len(moves);
    if i > 0 {
        law_undo_goes_backwards(moves.drop_last(), i - 1);
    }
}

/// The moves that are carried out are those that the plan shows, and as many of
/// them count as renamed as are marked so.
pub proof fn law_the_plan_is_carried_out(plan: Seq<PlannedMove>, m: PlannedMove, i: int)
    ensures
        moves_of(plan).len() == plan.len(),
        0 <= i < plan.len() ==> moves_of(plan)[i] == (plan[i].from, plan[i].to),
        renamed_in(Seq::<PlannedMove>::empty()) == 0,
        renamed_in(plan.push(m)) == renamed_in(plan) + (if m.renamed {
            1int
        } else {
            0
        }),
{
    assert(plan.push(m).drop_last() =~= plan);
}

/// What is said once a run of moves is over.
pub proof fn law_moves_are_summed_up(undo: bool, moved: nat, removed: nat, failures: nat)
    ensures
        run_status(false, false, moved, removed, 0) == "Moved "@ + text::decimal(moved)
            + " file(s) and removed "@ + text::decimal(removed) + " empty folder(s)."@,
        run_status(true, false, moved, removed, 0) == "Undo moved "@ + text::decimal(moved)
            + " file(s) back."@,
        run_status(undo, true, moved, removed, 0) == "Cancelled. "@ + run_status(
            undo,
            false,
            moved,
            removed,
            0,
        ),
        failures > 0 ==> run_status(undo, false, moved, removed, failures) == run_status(
            undo,
            false,
            moved,
            removed,
            0,
        ) + (" "@ + text::decimal(failures) + " failed."@),
{
    reveal_strlit("");
    let a = "Moved "@ + text::decimal(moved) + " file(s) and removed "@ + text::decimal(removed)
        + " empty folder(s)."@;
    let b = "Undo moved "@ + text::decimal(moved) + " file(s) back."@;
    let f = " "@ + text::decimal(failures) + " failed."@;
    assert(run_status(false, false, moved, removed, 0) =~= a);
    assert(run_status(true, false, moved, removed, 0) =~= b);
    assert(run_status(undo, true, moved, removed, 0) =~= "Cancelled. "@ + run_status(
        undo,
        false,
        moved,
        removed,
        0,
    ));
    if failures > 0 {
        assert(run_status(undo, false, moved, removed, failures) =~= run_status(
            undo,
            false,
            moved,
            removed,
            0,
        ) + f);
    }
}

/// The folder with one move carried out: nothing happens without the file, nor
/// if the destination is taken.
pub open spec fn moved<C>(
    folder: Map<Seq<char>, C>,
    m: (Seq<char>, Seq<char>),
) -> Map<Seq<char>, C> {
    if goes_through(folder, m) {
        folder.remove(m.0).insert(m.1, folder[m.0])
    } else {
        folder
    }
}

/// Whether the move can be carried out.
pub open spec fn goes_through<C>(
    folder: Map<Seq<char>, C>,
    m: (Seq<char>, Seq<char>),
) -> bool {
    folder.contains_key(m.0) && !folder.contains_key(m.1)
}

/// The folder with all moves carried out, one after the other.
pub open spec fn all_moved<C>(
    folder: Map<Seq<char>, C>,
    moves: Seq<(Seq<char>, Seq<char>)>,
) -> Map<Seq<char>, C>
    decreases moves.len(),
{
    if moves.len() == 0 {
        folder
    } else {
        moved(all_moved(folder, moves.drop_last()), moves.last())
    }
}

/// The moves that went through.
pub open spec fn went_through<C>(
    folder: Map<Seq<char>, C>,
    moves: Seq<(Seq<char>, Seq<char>)>,
) -> Seq<(Seq<char>, Seq<char>)>
    decreases moves.len(),
{
    if moves.len() == 0 {
        seq![]
    } else {
        let before = went_through(folder, moves.drop_last());
        if goes_through(all_moved(folder, moves.drop_last()), moves.last()) {
            before.push(moves.last())
        } else {
            before
        }
    }
}

proof fn lemma_moves_in_turn<C>(
    folder: Map<Seq<char>, C>,
    a: Seq<(Seq<char>, Seq<char>)>,
    b: Seq<(Seq<char>, Seq<char>)>,
)
    ensures
        all_moved(folder, a + b) == all_moved(all_moved(folder, a), b),
    decreases b.len(),
{
    if b.len() == 0 {
        assert(a + b =~= a);
    } else {
        assert((a + b).drop_last() =~= a + b.drop_last());
        lemma_moves_in_turn(folder, a, b.drop_last());
    }
}

/// Undo restores everything: carrying out moves and then taking back those
/// that went through leaves every file where it was, and no file changed.
pub proof fn law_undo_restores_everything<C>(
    folder: Map<Seq<char>, C>,
    moves: Seq<(Seq<char>, Seq<char>)>,
)
    ensures
        all_moved(all_moved(folder, moves), taken_back(went_through(folder, moves))) == folder,
    decreases moves.len(),
{
    if moves.len() > 0 {
        let before = moves.drop_last();
        let m = moves.last();
        let mid = all_moved(folder, before);
        let done = went_through(folder, before);
        let all = went_through(folder, moves);
        law_undo_restores_everything(folder, before);
        if goes_through(mid, m) {
            let end = moved(mid, m);
            let first = seq![(m.1, m.0)];
            assert(all.drop_last() =~= done);
            assert(taken_back(all) == first + taken_back(done));
            lemma_moves_in_turn(end, first, taken_back(done));
            assert(first.drop_last() =~= seq![]);
            assert(all_moved(end, first.drop_last()) == end);
            assert(all_moved(end, first) == moved(end, (m.1, m.0)));
            assert(moved(end, (m.1, m.0)) =~= mid);
        }
    }
}

/// A move never overwrites: whatever is at its destination stays.
pub proof fn law_moves_never_overwrite<C>(
    folder: Map<Seq<char>, C>,
    m: (Seq<char>, Seq<char>),
)
    requires
        folder.contains_key(m.1),
    ensures
        moved(folder, m) == folder,
{
}

/// `path` relative to `root`, for display; all of it if it lies elsewhere.
pub fn relative(path: &str, root: &str) -> (r: String)
    ensures
        r@ == (match paths::relative_to(path@, root@) {
            Some(rel) => rel,
            None => path@,
        }),
{
    match paths::strip_base(path, root) {
        Some(rel) => rel,
        None => path.to_owned(),
    }
}

/// Choosing a folder asks for a plan of it under a new number and clears the plan
/// before. Moves made in another folder can no longer be undone.
pub proof fn law_chosen_folders_are_planned(
    after: FlattenState,
    before: FlattenState,
    root: String,
    request: Option<PlanRequest>,
)
    requires
        after.has_chosen(before, root, request),
    ensures
        after.root == Some(root),
        after.plan@.len() == 0,
        after.status is None,
        after.errors@.len() == 0,
        request matches Some(q) && q.root == root && after.planning == Some(q.ticket) && q.ticket
            == after.tickets && q.ticket != before.tickets,
        after.remove_empty_dirs == before.remove_empty_dirs,
        before.root is None ==> after.last_run@.len() == 0,
        before.root matches Some(old_root) ==> {
            &&& paths::same_path(old_root@, root@) ==> after.last_run == before.last_run
            &&& !paths::same_path(old_root@, root@) ==> after.last_run@.len() == 0
        },
{
}

/// A run of moves starts from the beginning.
pub proof fn law_moves_start_from_the_beginning(job: MoveJob, total: usize, undo: bool)
    requires
        job.is_fresh(total, undo),
    ensures
        job.total == total,
        job.undo == undo,
        job.done == 0,
        job.completed@.len() == 0,
        job.current is None,
        !job.control.cancelled,
        !job.control.paused,
        job.clock.pause_start() is None,
        job.clock.pauses() == 0,
{
}

/// A new plan leaves the folder, its settings and what was moved before as they are,
/// and drops the plan before; without a folder nothing is asked for.
pub proof fn law_replanning_drops_the_plan(
    after: FlattenState,
    before: FlattenState,
    request: Option<PlanRequest>,
)
    requires
        after.same_but_plan(before),
        after.has_asked(before, request),
    ensures
        after.root == before.root,
        after.remove_empty_dirs == before.remove_empty_dirs,
        after.last_run == before.last_run,
        after.job == before.job,
        after.errors == before.errors,
        after.status == before.status,
        after.plan@.len() == 0,
        before.root is None ==> request is None && after.planning is None && after.tickets
            == before.tickets,
        before.root matches Some(root) ==> (request matches Some(q) && q.root == root
            && after.planning == Some(q.ticket) && q.ticket != before.tickets),
{
}

/// Starting a run leaves the folder, its plan and what was moved before as they are.
pub proof fn law_starting_keeps_the_plan(after: FlattenState, before: FlattenState)
    requires
        after.same_but_job(before),
    ensures
        after.root == before.root,
        after.remove_empty_dirs == before.remove_empty_dirs,
        after.plan == before.plan,
        after.planning == before.planning,
        after.tickets == before.tickets,
        after.last_run == before.last_run,
{
}

} // verus!
