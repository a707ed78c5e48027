//! Lossless re-encoding of images (and, via ffmpeg, videos) into formats
//! that take less space, keeping a result only when it's actually smaller.
//!
//! The state here decides; carrying a run out is up to the caller, which hands
//! back what came of it.

use crate::control::{self, ActiveClock, JobControl};
use crate::drive_fill::measure;
use crate::sorting;
use crate::text;
use image_codec::ImageTarget;
use video_codec::VideoMode;
use vstd::prelude::*;
use worker::{FileResult, OriginalHandling, Outcome, ReencodeEvent, ReencodeOptions};

pub mod image_codec;
pub mod video_codec;
pub mod worker;

verus! {

/// A run that is under way.
#[derive(Debug)]
pub struct ReencodeJob {
    pub control: JobControl,
    pub clock: ActiveClock,
    /// `None` until the folder walk has finished.
    pub total_files: Option<usize>,
    pub total_bytes: u64,
    /// Bytes of input fully processed (finished files).
    pub bytes_done: u64,
    pub current: Option<(String, u64)>,
    /// How much of the current file is done, and out of how much, for videos.
    pub current_progress: Option<(u64, u64)>,
}

/// The part of `size` that is done when `done` out of `total` are.
pub open spec fn share(size: u64, done: u64, total: u64) -> nat {
    if total == 0 {
        0
    } else if done >= total {
        size as nat
    } else {
        (size as nat * done as nat) / (total as nat)
    }
}

impl ReencodeJob {
    /// Whether nothing has been re-encoded yet.
    pub open spec fn is_fresh(self) -> bool {
        &&& !self.control.cancelled && !self.control.paused
        &&& self.clock.pause_start() is None && self.clock.pauses() == 0
        &&& self.total_files is None
        &&& self.total_bytes == 0
        &&& self.bytes_done == 0
        &&& self.current is None
        &&& self.current_progress is None
    }

    fn new() -> (r: Self)
        ensures
            r.is_fresh(),
    {
        ReencodeJob {
            control: JobControl::default(),
            clock: ActiveClock::start(),
            total_files: None,
            total_bytes: 0,
            bytes_done: 0,
            current: None,
            current_progress: None,
        }
    }

    /// Input bytes processed, counting the finished share of the current file.
    pub open spec fn processed(self) -> u64 {
        measure::capped(
            self.bytes_done as nat + (match (self.current, self.current_progress) {
                (Some((_, size)), Some((done, total))) => share(size, done, total),
                _ => 0,
            }),
        )
    }

    /// Computes [`ReencodeJob::processed`].
    pub fn progress_bytes(&self) -> (r: u64)
        ensures
            r == self.processed(),
    {
        let partial: u64 = match (&self.current, self.current_progress) {
            (Some((_, size)), Some((done, total))) => {
                let size: u64 = *size;
                if total == 0 {
                    0
                } else if done >= total {
                    size
                } else {
                    assert(size as u128 * done as u128 <= 0xffff_ffff_ffff_ffff
                        * 0xffff_ffff_ffff_ffff) by (nonlinear_arith)
                        requires
                            size <= 0xffff_ffff_ffff_ffff,
                            done <= 0xffff_ffff_ffff_ffff,
                    ;
                    assert((size as nat * done as nat) / (total as nat) <= size)
                        by (nonlinear_arith)
                        requires
                            done < total,
                    ;
                    ((size as u128 * done as u128) / (total as u128)) as u64
                }
            },
            _ => 0,
        };
        self.bytes_done.saturating_add(partial)
    }

    /// The time that is left after running for `elapsed`.
    pub fn eta(&self, elapsed: u64) -> (r: Option<u128>)
        ensures
            match r {
                Some(t) => control::remaining_time(self.processed(), self.total_bytes, elapsed)
                    == Some(t as nat),
                None => control::remaining_time(self.processed(), self.total_bytes, elapsed)
                    is None,
            },
    {
        control::estimate_remaining(self.progress_bytes(), self.total_bytes, elapsed)
    }

    /// All that pausing and cancelling leave alone.
    pub open spec fn same_work(self, other: ReencodeJob) -> bool {
        &&& self.total_files == other.total_files
        &&& self.total_bytes == other.total_bytes
        &&& self.bytes_done == other.bytes_done
        &&& self.current == other.current
        &&& self.current_progress == other.current_progress
    }

    /// Whether the job is paused.
    pub fn is_paused(&self) -> (r: bool)
        ensures
            r == self.control.paused,
    {
        self.control.is_paused()
    }

    /// Pauses the job or lets it go on, and its clock with it.
    pub fn toggle_pause(&mut self)
        ensures
            final(self).control.paused == !old(self).control.paused,
            final(self).control.cancelled == old(self).control.cancelled,
            final(self).clock.pause_start() is Some == final(self).control.paused,
            final(self).clock.follows(old(self).clock, final(self).control.paused),
            final(self).same_work(*old(self)),
    {
        let paused: bool = !self.control.is_paused();
        self.control.set_paused(paused);
        if paused {
            self.clock.pause();
        } else {
            self.clock.resume();
        }
    }

    /// Cancels the job; its clock goes on.
    pub fn cancel(&mut self)
        ensures
            final(self).control.cancelled,
            final(self).control.paused == old(self).control.paused,
            final(self).clock.pause_start() is None,
            final(self).clock.follows(old(self).clock, false),
            final(self).same_work(*old(self)),
    {
        self.control.cancel();
        self.clock.resume();
    }

    /// Whether the job is cancelled.
    pub fn is_cancelled(&self) -> (r: bool)
        ensures
            r == self.control.cancelled,
    {
        self.control.is_cancelled()
    }
}

/// Totals across a run's finished files.
#[derive(Clone, Copy, Debug, PartialEq, Eq, Structural)]
pub struct ReencodeTotals {
    pub converted: usize,
    pub skipped: usize,
    pub failed: usize,
    pub bytes_before: u64,
    pub bytes_after: u64,
}

impl Default for ReencodeTotals {
    fn default() -> (r: Self)
        ensures
            r == no_totals(),
    {
        ReencodeTotals { converted: 0, skipped: 0, failed: 0, bytes_before: 0, bytes_after: 0 }
    }
}

/// The totals of no file.
pub open spec fn no_totals() -> ReencodeTotals {
    ReencodeTotals { converted: 0, skipped: 0, failed: 0, bytes_before: 0, bytes_after: 0 }
}

/// The totals with one more file.
pub open spec fn counted(t: ReencodeTotals, result: FileResult) -> ReencodeTotals {
    match result.outcome {
        Outcome::Saved { new_path, new_size } => ReencodeTotals {
            converted: control::one_more(t.converted),
            bytes_before: measure::capped((t.bytes_before + result.size) as nat),
            bytes_after: measure::capped((t.bytes_after + new_size) as nat),
            ..t
        },
        Outcome::Skipped(_) => ReencodeTotals { skipped: control::one_more(t.skipped), ..t },
        Outcome::Failed(_) => ReencodeTotals { failed: control::one_more(t.failed), ..t },
    }
}

/// The totals of the files.
pub open spec fn tally(results: Seq<FileResult>) -> ReencodeTotals
    decreases results.len(),
{
    if results.len() == 0 {
        no_totals()
    } else {
        counted(tally(results.drop_last()), results.last())
    }
}

impl ReencodeTotals {
    /// How many bytes were saved.
    pub open spec fn saving(self) -> u64 {
        if self.bytes_before > self.bytes_after {
            (self.bytes_before - self.bytes_after) as u64
        } else {
            0
        }
    }

    /// Computes [`ReencodeTotals::saving`].
    pub fn saved(&self) -> (r: u64)
        ensures
            r == self.saving(),
    {
        self.bytes_before.saturating_sub(self.bytes_after)
    }
}

/// The state of re-encoding.
#[derive(Debug)]
pub struct ReencodeState {
    pub folders: Vec<String>,
    pub images_enabled: bool,
    pub image_target: ImageTarget,
    pub video_mode: VideoMode,
    pub originals: OriginalHandling,
    pub job: Option<ReencodeJob>,
    pub results: Vec<FileResult>,
    pub totals: ReencodeTotals,
    pub hide_skipped: bool,
    pub status: Option<String>,
    /// Whether ffmpeg is there; checked lazily the first time videos are
    /// enabled.
    pub ffmpeg: Option<bool>,
}

impl Default for ReencodeState {
    fn default() -> (r: Self)
        ensures
            r.folders@.len() == 0,
            r.images_enabled,
            r.image_target is LosslessWebp,
            r.video_mode is Skip,
            r.originals is Trash,
            r.job is None,
            r.results@.len() == 0,
            r.totals == no_totals(),
            r.hide_skipped,
            r.status is None,
            r.ffmpeg is None,
    {
        ReencodeState {
            folders: Vec::new(),
            images_enabled: true,
            image_target: ImageTarget::LosslessWebp,
            video_mode: VideoMode::Skip,
            originals: OriginalHandling::Trash,
            job: None,
            results: Vec::new(),
            totals: ReencodeTotals::default(),
            hide_skipped: true,
            status: None,
            ffmpeg: None,
        }
    }
}

/// What the state says once a run is over, given how the saved bytes are
/// written.
pub open spec fn run_status(
    cancelled: bool,
    totals: ReencodeTotals,
    saved_text: Seq<char>,
) -> Seq<char> {
    (if cancelled {
        "Cancelled. "@
    } else {
        ""@
    }) + "Re-encoded "@ + text::decimal(totals.converted as nat) + " file(s), saving "@
        + saved_text + "; skipped "@ + text::decimal(totals.skipped as nat) + ", failed "@
        + text::decimal(totals.failed as nat) + "."@
}

/// Says how a run went, given how the saved bytes are written.
pub fn describe_run(cancelled: bool, totals: ReencodeTotals, saved_text: &str) -> (r: String)
    ensures
        r@ == run_status(cancelled, totals, saved_text@),
{
    let start: String = if cancelled {
        "Cancelled. ".to_owned()
    } else {
        "".to_owned()
    };
    start.concat("Re-encoded ").concat(
        text::decimal_text(totals.converted as u128).as_str(),
    ).concat(" file(s), saving ").concat(saved_text).concat("; skipped ").concat(
        text::decimal_text(totals.skipped as u128).as_str(),
    ).concat(", failed ").concat(text::decimal_text(totals.failed as u128).as_str()).concat(".")
}

impl ReencodeState {
    /// Whether a run would do anything: there are folders, and something in
    /// them is to be re-encoded.
    pub fn can_start(&self) -> (r: bool)
        ensures
            r == (self.job is None && self.folders@.len() > 0 && (self.images_enabled
                || !(self.video_mode is Skip))),
    {
        self.job.is_none() && self.folders.len() > 0 && (self.images_enabled || self.video_mode
            != VideoMode::Skip)
    }

    /// The positions of the results that are shown: all, or all but those of
    /// skipped files.
    pub open spec fn visible_results(results: Seq<FileResult>, hide_skipped: bool) -> Seq<int>
        decreases results.len(),
    {
        if results.len() == 0 {
            seq![]
        } else {
            let before = Self::visible_results(results.drop_last(), hide_skipped);
            if hide_skipped && results.last().outcome is Skipped {
                before
            } else {
                before.push(results.len() - 1)
            }
        }
    }

    /// Lists [`ReencodeState::visible_results`].
    pub fn shown_results(&self) -> (r: Vec<usize>)
        ensures
            sorting::positions(r@) == Self::visible_results(self.results@, self.hide_skipped),
            forall|a: int| 0 <= a < r@.len() ==> #[trigger] r@[a] < self.results@.len(),
    {
        let mut out: Vec<usize> = Vec::new();
        let mut i: usize = 0;
        while i < self.results.len()
            invariant
                i <= self.results@.len(),
                sorting::positions(out@) =~= Self::visible_results(
                    self.results@.take(i as int),
                    self.hide_skipped,
                ),
                forall|a: int| 0 <= a < out@.len() ==> #[trigger] out@[a] < i,
            decreases self.results@.len() - i,
        {
            assert(self.results@.take(i + 1).drop_last() =~= self.results@.take(i as int));
            let skipped: bool = match &self.results[i].outcome {
                Outcome::Skipped(_) => true,
                _ => false,
            };
            if !(self.hide_skipped && skipped) {
                let ghost before = sorting::positions(out@);
                out.push(i);
                assert(sorting::positions(out@) =~= before.push(i as int));
            }
            i = i + 1;
        }
        assert(self.results@.take(self.results@.len() as int) =~= self.results@);
        out
    }

    /// Whether a run is under way.
    pub fn is_running(&self) -> (r: bool)
        ensures
            r == (self.job is Some),
    {
        self.job.is_some()
    }

    /// Whether ffmpeg is there: as found the first time, or else as found now.
    pub open spec fn has_ffmpeg(self, found: bool) -> bool {
        match self.ffmpeg {
            Some(b) => b,
            None => found,
        }
    }

    /// Says whether ffmpeg is there, and remembers what was found the first
    /// time.
    pub fn ffmpeg_available(&mut self, found: bool) -> (r: bool)
        ensures
            r == old(self).has_ffmpeg(found),
            *final(self) == (ReencodeState { ffmpeg: Some(r), ..*old(self) }),
    {
        match self.ffmpeg {
            Some(b) => b,
            None => {
                self.ffmpeg = Some(found);
                found
            },
        }
    }

    /// Whether the totals are those of the results.
    pub open spec fn is_tallied(self) -> bool {
        self.totals == tally(self.results@)
    }

    /// Starts a run: gives what is to be re-encoded. Not while one is under
    /// way, nor without any folder. Without ffmpeg, videos are skipped; `found`
    /// says whether it is there, in case that is not known yet.
    pub fn start(&mut self, found: bool) -> (r: Option<ReencodeOptions>)
        ensures
            r is None <==> (old(self).job is Some || old(self).folders@.len() == 0),
            r is None ==> *final(self) == *old(self),
            r matches Some(o) ==> {
                let lacks_ffmpeg = !(old(self).video_mode is Skip) && !old(self).has_ffmpeg(found);
                &&& o.folders@ == old(self).folders@
                &&& o.images == (if old(self).images_enabled {
                    Some(old(self).image_target)
                } else {
                    None
                })
                &&& o.videos == (if lacks_ffmpeg {
                    VideoMode::Skip
                } else {
                    old(self).video_mode
                })
                &&& o.originals == old(self).originals
                &&& if lacks_ffmpeg {
                    final(self).status matches Some(s) && s@
                        == "ffmpeg/ffprobe not found on PATH: videos will be skipped."@
                } else {
                    final(self).status is None
                }
                &&& final(self).ffmpeg == (if old(self).video_mode is Skip {
                    old(self).ffmpeg
                } else {
                    Some(old(self).has_ffmpeg(found))
                })
                &&& final(self).results@.len() == 0
                &&& final(self).totals == no_totals()
                &&& final(self).is_tallied()
                &&& final(self).job matches Some(j) && j.is_fresh()
                &&& *final(self) == (ReencodeState {
                    status: final(self).status,
                    ffmpeg: final(self).ffmpeg,
                    results: final(self).results,
                    totals: final(self).totals,
                    job: final(self).job,
                    ..*old(self)
                })
            },
    {
        if self.is_running() || self.folders.len() == 0 {
            return None;
        }
        let videos: VideoMode = if self.video_mode != VideoMode::Skip && !self.ffmpeg_available(
            found,
        ) {
            self.status = Some(
                "ffmpeg/ffprobe not found on PATH: videos will be skipped.".to_owned(),
            );
            VideoMode::Skip
        } else {
            self.status = None;
            self.video_mode
        };
        let options = ReencodeOptions {
            folders: text::copy_texts(&self.folders),
            images: if self.images_enabled {
                Some(self.image_target)
            } else {
                None
            },
            videos,
            originals: self.originals,
        };
        self.results = Vec::new();
        self.totals = ReencodeTotals::default();
        self.job = Some(ReencodeJob::new());
        Some(options)
    }

    /// Takes what a run reports. Says whether anything changed.
    pub fn take_event(&mut self, event: ReencodeEvent) -> (r: bool)
        ensures
            r == (old(self).job is Some),
            !r ==> *final(self) == *old(self),
            old(self).is_tallied() ==> final(self).is_tallied(),
            old(self).job matches Some(a) ==> match event {
                ReencodeEvent::Finished => {
                    &&& final(self).job is None
                    &&& final(self).status matches Some(s) && s@ == run_status(
                        a.control.cancelled,
                        old(self).totals,
                        crate::ui::format::size_text(old(self).totals.saving()),
                    )
                    &&& *final(self) == (ReencodeState {
                        job: None,
                        status: final(self).status,
                        ..*old(self)
                    })
                },
                ReencodeEvent::FileDone(result) => {
                    &&& final(self).totals == counted(old(self).totals, result)
                    &&& final(self).results@ == old(self).results@.push(result)
                    &&& final(self).job == Some(
                        ReencodeJob {
                            bytes_done: measure::capped((a.bytes_done + result.size) as nat),
                            current: None,
                            ..a
                        },
                    )
                    &&& *final(self) == (ReencodeState {
                        totals: final(self).totals,
                        results: final(self).results,
                        job: final(self).job,
                        ..*old(self)
                    })
                },
                ReencodeEvent::Discovered { files, bytes } => *final(self) == (ReencodeState {
                    job: Some(
                        ReencodeJob { total_files: Some(files), total_bytes: bytes, ..a },
                    ),
                    ..*old(self)
                }),
                ReencodeEvent::Started { path, size } => *final(self) == (ReencodeState {
                    job: Some(
                        ReencodeJob { current: Some((path, size)), current_progress: None, ..a },
                    ),
                    ..*old(self)
                }),
                ReencodeEvent::FileProgress { done, total } => *final(self) == (ReencodeState {
                    job: Some(ReencodeJob { current_progress: Some((done, total)), ..a }),
                    ..*old(self)
                }),
            },
    {
        let mut job: ReencodeJob = match self.job.take() {
            Some(job) => job,
            None => return false,
        };
        match event {
            ReencodeEvent::Discovered { files, bytes } => {
                job.total_files = Some(files);
                job.total_bytes = bytes;
                self.job = Some(job);
            },
            ReencodeEvent::Started { path, size } => {
                job.current = Some((path, size));
                job.current_progress = None;
                self.job = Some(job);
            },
            ReencodeEvent::FileProgress { done, total } => {
                job.current_progress = Some((done, total));
                self.job = Some(job);
            },
            ReencodeEvent::FileDone(result) => {
                job.bytes_done = job.bytes_done.saturating_add(result.size);
                job.current = None;
                match &result.outcome {
                    Outcome::Saved { new_size, .. } => {
                        self.totals.converted = self.totals.converted.saturating_add(1);
                        self.totals.bytes_before = self.totals.bytes_before.saturating_add(
                            result.size,
                        );
                        self.totals.bytes_after = self.totals.bytes_after.saturating_add(*new_size);
                    },
                    Outcome::Skipped(_) => {
                        self.totals.skipped = self.totals.skipped.saturating_add(1);
                    },
                    Outcome::Failed(_) => {
                        self.totals.failed = self.totals.failed.saturating_add(1);
                    },
                }
                let ghost before = self.results@;
                self.results.push(result);
                assert(self.results@.drop_last() =~= before);
                self.job = Some(job);
            },
            ReencodeEvent::Finished => {
                let saved: String = crate::ui::format::format_size(self.totals.saved());
                self.status = Some(
                    describe_run(job.control.is_cancelled(), self.totals, saved.as_str()),
                );
            },
        }
        true
    }
}

/// A run's totals count each file once, by what became of it, and the sizes
/// before and after only of those that were saved; no number runs over.
pub proof fn law_totals_count_every_file(results: Seq<FileResult>, r: FileResult)
    ensures
        ({
            let none = tally(Seq::<FileResult>::empty());
            &&& none.converted == 0 && none.skipped == 0 && none.failed == 0
            &&& none.bytes_before == 0 && none.bytes_after == 0
        }),
        ({
            let t = tally(results);
            let u = tally(results.push(r));
            &&& u.converted == (if r.outcome is Saved && t.converted < usize::MAX {
                t.converted + 1
            } else {
                t.converted as int
            })
            &&& u.skipped == (if r.outcome is Skipped && t.skipped < usize::MAX {
                t.skipped + 1
            } else {
                t.skipped as int
            })
            &&& u.failed == (if r.outcome is Failed && t.failed < usize::MAX {
                t.failed + 1
            } else {
                t.failed as int
            })
            &&& !(r.outcome is Saved) ==> u.bytes_before == t.bytes_before && u.bytes_after
                == t.bytes_after
            &&& r.outcome matches Outcome::Saved { new_path, new_size } ==> {
                &&& t.bytes_before + r.size <= u64::MAX ==> u.bytes_before == t.bytes_before
                    + r.size
                &&& t.bytes_before + r.size > u64::MAX ==> u.bytes_before == u64::MAX
                &&& t.bytes_after + new_size <= u64::MAX ==> u.bytes_after == t.bytes_after
                    + new_size
                &&& t.bytes_after + new_size > u64::MAX ==> u.bytes_after == u64::MAX
            }
        }),
{
    assert(results.push(r).drop_last() =~= results);
}

/// What a run has saved is what the saved files were larger before.
pub proof fn law_saving_is_the_difference(t: ReencodeTotals)
    ensures
        t.bytes_after <= t.bytes_before ==> t.saving() == t.bytes_before - t.bytes_after,
        t.bytes_after > t.bytes_before ==> t.saving() == 0,
{
}

/// Every result is shown, or every one but those of skipped files where they
/// are hidden, in order.
pub proof fn law_only_skipped_results_are_hidden(results: Seq<FileResult>, r: FileResult)
    ensures
        ReencodeState::visible_results(Seq::<FileResult>::empty(), true).len() == 0,
        ReencodeState::visible_results(Seq::<FileResult>::empty(), false).len() == 0,
        ReencodeState::visible_results(results.push(r), false) == ReencodeState::visible_results(
            results,
            false,
        ).push(results.len() as int),
        r.outcome is Skipped ==> ReencodeState::visible_results(results.push(r), true)
            == ReencodeState::visible_results(results, true),
        !(r.outcome is Skipped) ==> ReencodeState::visible_results(results.push(r), true)
            == ReencodeState::visible_results(results, true).push(results.len() as int),
{
    assert(results.push(r).drop_last() =~= results);
}

/// Progress counts what is finished and the finished share of the file under
/// way: nothing of it while nothing is known, all of it at the end, never more
/// than its size, and more the further it has come.
pub proof fn law_progress_counts_the_current_file(size: u64, done: u64, more: u64, total: u64)
    requires
        done <= more,
    ensures
        share(size, done, 0) == 0,
        total > 0 ==> share(size, 0, total) == 0,
        total > 0 ==> share(size, total, total) == size,
        share(size, done, total) <= size,
        share(size, done, total) <= share(size, more, total),
        0 < done <= total ==> share(size, done, total) * total <= size * done,
        0 < done <= total ==> size * done < (share(size, done, total) + 1) * total,
{
    if total > 0 {
        let n = size as nat;
        let t = total as nat;
        assert((n * 0) / t == 0) by (nonlinear_arith)
            requires
                t > 0,
        ;
        assert(n * 0 == 0);
        lemma_share(n, done as nat, t);
        lemma_share(n, more as nat, t);
        assert(n * (done as nat) <= n * (more as nat)) by (nonlinear_arith)
            requires
                done <= more,
        ;
        let a = n * (done as nat);
        let b = n * (more as nat);
        assert(a / t <= b / t) by (nonlinear_arith)
            requires
                a <= b,
                t > 0,
        ;
        assert(n * t == size * total);
        assert((n + 1) * t == n * t + t) by (nonlinear_arith);
    }
}

proof fn lemma_share(size: nat, done: nat, total: nat)
    requires
        total > 0,
    ensures
        (size * done / total) * total <= size * done,
        size * done < (size * done / total + 1) * total,
        done <= total ==> size * done / total <= size,
{
    let a = size * done;
    let q = a / total;
    assert(q * total <= a && a < (q + 1) * total) by (nonlinear_arith)
        requires
            total > 0,
            q == a / total,
    ;
    if done <= total {
        assert(q <= size) by (nonlinear_arith)
            requires
                q * total <= size * done,
                done <= total,
                total > 0,
        ;
    }
}

/// What the bytes processed are: those of finished files, and the share of the
/// one under way once there is one.
pub proof fn law_processed_bytes(job: ReencodeJob)
    ensures
        job.current is None || job.current_progress is None ==> job.processed() == job.bytes_done,
        job.current matches Some((_, size)) ==> (job.current_progress matches Some((done, total))
            ==> {
            let all = job.bytes_done + share(size, done, total);
            &&& all <= u64::MAX ==> job.processed() == all
            &&& all > u64::MAX ==> job.processed() == u64::MAX
        }),
{
}

/// What is said once a run is over.
pub proof fn law_run_is_summed_up(totals: ReencodeTotals, saved: Seq<char>)
    ensures
        run_status(false, totals, saved) == "Re-encoded "@ + text::decimal(totals.converted as nat)
            + " file(s), saving "@ + saved + "; skipped "@ + text::decimal(totals.skipped as nat)
            + ", failed "@ + text::decimal(totals.failed as nat) + "."@,
        run_status(true, totals, saved) == "Cancelled. "@ + run_status(false, totals, saved),
{
    reveal_strlit("");
    let r = "Re-encoded "@ + text::decimal(totals.converted as nat) + " file(s), saving "@ + saved
        + "; skipped "@ + text::decimal(totals.skipped as nat) + ", failed "@ + text::decimal(
        totals.failed as nat,
    ) + "."@;
    assert(run_status(false, totals, saved) =~= r);
    assert(run_status(true, totals, saved) =~= "Cancelled. "@ + r);
}

/// Whether every file that was saved got smaller.
pub open spec fn all_smaller(results: Seq<FileResult>) -> bool {
    forall|i: int|
        0 <= i < results.len() ==> ((#[trigger] results[i]).outcome matches Outcome::Saved {
            new_path,
            new_size,
        } ==> new_size < results[i].size)
}

/// As every saved file got smaller, a run never takes more space than before.
pub proof fn law_runs_save_space(results: Seq<FileResult>)
    requires
        all_smaller(results),
    ensures
        tally(results).bytes_after <= tally(results).bytes_before,
    decreases results.len(),
{
    if results.len() > 0 {
        let less = results.drop_last();
        assert forall|i: int| 0 <= i < less.len() implies ((#[trigger] less[i]).outcome matches
            Outcome::Saved { new_path, new_size } ==> new_size < less[i].size) by {
            assert(less[i] == results[i]);
        }
        law_runs_save_space(less);
        assert(results[results.len() - 1] == results.last());
    }
}

/// A run starts from the beginning.
pub proof fn law_runs_start_from_the_beginning(job: ReencodeJob)
    requires
        job.is_fresh(),
    ensures
        job.total_files is None,
        job.total_bytes == 0,
        job.bytes_done == 0,
        job.current is None,
        job.current_progress is None,
        !job.control.cancelled,
        !job.control.paused,
        job.clock.pause_start() is None,
        job.clock.pauses() == 0,
{
}

/// Pausing or cancelling a run leaves what it has done.
pub proof fn law_runs_keep_their_work(after: ReencodeJob, before: ReencodeJob)
    requires
        after.same_work(before),
    ensures
        after.total_files == before.total_files,
        after.total_bytes == before.total_bytes,
        after.bytes_done == before.bytes_done,
        after.current == before.current,
        after.current_progress == before.current_progress,
{
}

/// The totals are those of the results that are listed: nothing of no results, and
/// of a list that grew by one file those before with that file counted.
pub proof fn law_totals_are_those_of_the_results(
    before: ReencodeState,
    after: ReencodeState,
    result: FileResult,
)
    requires
        before.is_tallied(),
        after.is_tallied(),
        after.results@ == before.results@.push(result),
    ensures
        before.results@.len() == 0 ==> before.totals.converted == 0 && before.totals.skipped == 0
            && before.totals.failed == 0 && before.totals.bytes_before == 0
            && before.totals.bytes_after == 0,
        after.totals == counted(before.totals, result),
{
    assert(before.results@.push(result).drop_last() =~= before.results@);
}

} // verus!
