//! Pausing, cancelling and timing background jobs.
//!
//! Durations are nanoseconds.

use vstd::prelude::*;

verus! {

/// How often a paused worker wakes up to check whether it's been resumed or
/// cancelled, in milliseconds.
pub const PAUSE_POLL_MS: u64 = 50;

/// What a worker does at a checkpoint.
#[derive(Clone, Copy, Debug, PartialEq, Eq, Structural)]
pub enum Checkpoint {
    /// Go on with the job.
    Proceed,
    /// The job is paused: look again a little later.
    Wait,
    /// The job is cancelled.
    Stop,
}

/// Cancel and pause flags of a background worker (scan, index, or delete).
/// Workers look at `checkpoint` wherever they can stop.
#[derive(Clone, Copy, Debug, PartialEq, Eq, Structural)]
pub struct JobControl {
    pub cancelled: bool,
    pub paused: bool,
}

impl Default for JobControl {
    fn default() -> (r: Self)
        ensures
            !r.cancelled,
            !r.paused,
    {
        JobControl { cancelled: false, paused: false }
    }
}

impl JobControl {
    /// A control that's already cancelled, e.g. to test that a worker bails
    /// out immediately.
    pub fn cancelled() -> (r: Self)
        ensures
            r.cancelled,
            !r.paused,
    {
        let mut control = JobControl { cancelled: false, paused: false };
        control.cancel();
        control
    }

    /// Cancels the job. That can't be taken back.
    pub fn cancel(&mut self)
        ensures
            final(self).cancelled,
            final(self).paused == old(self).paused,
    {
        self.cancelled = true;
    }

    /// Whether the job is cancelled.
    pub fn is_cancelled(&self) -> (r: bool)
        ensures
            r == self.cancelled,
    {
        self.cancelled
    }

    /// Pauses the job or lets it go on.
    pub fn set_paused(&mut self, paused: bool)
        ensures
            final(self).paused == paused,
            final(self).cancelled == old(self).cancelled,
    {
        self.paused = paused;
    }

    /// Whether the job is paused.
    pub fn is_paused(&self) -> (r: bool)
        ensures
            r == self.paused,
    {
        self.paused
    }

    /// What the worker does now: it waits for as long as the job is paused,
    /// and stops once it's cancelled. Cancelling a paused job wakes it up (to
    /// stop).
    pub fn checkpoint(&self) -> (r: Checkpoint)
        ensures
            r == Checkpoint::Stop <==> self.cancelled,
            r == Checkpoint::Wait <==> self.paused && !self.cancelled,
            r == Checkpoint::Proceed <==> !self.paused && !self.cancelled,
    {
        if self.cancelled {
            Checkpoint::Stop
        } else if self.paused {
            Checkpoint::Wait
        } else {
            Checkpoint::Proceed
        }
    }
}

/// `n` and one more, if there is one more.
pub open spec fn one_more(n: usize) -> usize {
    if n < usize::MAX {
        (n + 1) as usize
    } else {
        n
    }
}

/// The number of the next request after one with this number. They come round
/// in the end, but two in a row are never the same.
pub open spec fn next_ticket(ticket: u64) -> u64 {
    if ticket < u64::MAX {
        (ticket + 1) as u64
    } else {
        0
    }
}

/// A reading of the system's monotonic clock.
#[verifier::external_type_specification]
#[verifier::external_body]
pub struct ExInstant(std::time::Instant);

/// `std::time::Instant::now`: a reading of the clock. Nothing is claimed of
/// when that is.
#[verifier::external_body]
fn read_clock() -> (r: std::time::Instant) {
    std::time::Instant::now()
}

/// `std::time::Instant::elapsed`: the nanoseconds from the reading to now.
/// Nothing is claimed of how many there are.
#[verifier::external_body]
fn nanos_since(t: &std::time::Instant) -> (r: u128) {
    t.elapsed().as_nanos()
}

/// Nanoseconds as the clocks count them: the largest count there is stands for
/// all that are more.
pub fn count_nanos(nanos: u128) -> (r: u64)
    ensures
        r == (if nanos <= u64::MAX {
            nanos as u64
        } else {
            u64::MAX
        }),
{
    if nanos > 0xffff_ffff_ffff_ffff {
        0xffff_ffff_ffff_ffff
    } else {
        nanos as u64
    }
}

/// `a + b`, or the largest value there is.
pub open spec fn capped_add(a: u64, b: u64) -> u64 {
    if a + b <= u64::MAX {
        (a + b) as u64
    } else {
        u64::MAX
    }
}

/// `a - b`, or 0.
pub open spec fn floored_sub(a: u64, b: u64) -> u64 {
    if a >= b {
        (a - b) as u64
    } else {
        0
    }
}

/// Measures how long a job has actually been running, leaving out time spent
/// paused, so rates and ETAs don't sag (and "done in" times don't balloon)
/// just because the user paused for a while.
///
/// All times count from the clock's start.
#[derive(Clone, Copy, Debug)]
pub struct ActiveClock {
    started: std::time::Instant,
    paused_since: Option<u64>,
    paused_total: u64,
}

impl ActiveClock {
    /// The reading of the system's clock from which all times count.
    pub closed spec fn origin(&self) -> std::time::Instant {
        self.started
    }

    /// Since when the clock is paused, if it is.
    pub closed spec fn pause_start(&self) -> Option<u64> {
        self.paused_since
    }

    /// How long the clock was paused before that.
    pub closed spec fn pauses(&self) -> u64 {
        self.paused_total
    }

    /// How long the job has been running at the time `now`.
    pub open spec fn running_at(&self, now: u64) -> u64 {
        floored_sub(
            match self.pause_start() {
                Some(t) => t,
                None => now,
            },
            self.pauses(),
        )
    }

    /// How long the clock has been paused by the time `now`, any pause still
    /// ongoing with it.
    pub open spec fn paused_by(&self, now: u64) -> u64 {
        match self.pause_start() {
            Some(t) => capped_add(self.pauses(), floored_sub(now, t)),
            None => self.pauses(),
        }
    }

    /// Whether the clock is what `before` becomes when it is paused at the time
    /// `now`, or goes on then. Its start stays.
    pub open spec fn is_switched(&self, before: ActiveClock, paused: bool, now: u64) -> bool {
        &&& self.origin() == before.origin()
        &&& if paused {
            &&& self.pause_start() == (match before.pause_start() {
                Some(t) => Some(t),
                None => Some(now),
            })
            &&& self.pauses() == before.pauses()
        } else {
            &&& self.pause_start() is None
            &&& self.pauses() == before.paused_by(now)
        }
    }

    /// Whether the clock is what `before` becomes when it is paused at some
    /// time, or goes on then.
    pub open spec fn follows(&self, before: ActiveClock, paused: bool) -> bool {
        exists|now: u64| #[trigger] self.is_switched(before, paused, now)
    }

    /// Whether nothing that the clock has noted lies behind the time `now`.
    pub open spec fn is_timely(&self, now: u64) -> bool {
        match self.pause_start() {
            Some(t) => self.pauses() <= t <= now,
            None => self.pauses() <= now,
        }
    }

    /// Starts a clock.
    pub fn start() -> (r: Self)
        ensures
            r.pause_start() is None,
            r.pauses() == 0,
    {
        ActiveClock { started: read_clock(), paused_since: None, paused_total: 0 }
    }

    /// Like `start`, but begins paused (a clock created while its job is
    /// already paused).
    pub fn start_paused(paused: bool) -> (r: Self)
        ensures
            r.pause_start() is Some == paused,
            r.pauses() == 0,
    {
        let mut clock = ActiveClock::start();
        if paused {
            clock.pause();
        }
        clock
    }

    /// The time since the start, as [`count_nanos`] counts it. When it is now
    /// rests on the system's clock, so nothing is claimed of how long that is.
    fn now(&self) -> (r: u64) {
        count_nanos(nanos_since(&self.started))
    }

    /// Pauses the clock at the time `now`, unless it is paused already.
    pub fn pause_at(&mut self, now: u64)
        ensures
            final(self).is_switched(*old(self), true, now),
    {
        if self.paused_since.is_none() {
            self.paused_since = Some(now);
        }
    }

    /// Pauses the clock.
    pub fn pause(&mut self)
        ensures
            final(self).follows(*old(self), true),
            final(self).origin() == old(self).origin(),
            final(self).pause_start() is Some,
            old(self).pause_start() is Some ==> final(self).pause_start() == old(self).pause_start(),
            final(self).pauses() == old(self).pauses(),
    {
        let now: u64 = self.now();
        self.pause_at(now);
    }

    /// Lets the clock go on at the time `now`, if it is paused.
    pub fn resume_at(&mut self, now: u64)
        ensures
            final(self).is_switched(*old(self), false, now),
    {
        if let Some(since) = self.paused_since {
            self.paused_total = self.paused_total.saturating_add(now.saturating_sub(since));
            self.paused_since = None;
        }
    }

    /// Lets the clock go on.
    pub fn resume(&mut self)
        ensures
            final(self).follows(*old(self), false),
            final(self).origin() == old(self).origin(),
            final(self).pause_start() is None,
            final(self).pauses() >= old(self).pauses(),
            old(self).pause_start() is None ==> final(self).pauses() == old(self).pauses(),
    {
        let now: u64 = self.now();
        self.resume_at(now);
    }

    /// Time spent running (not paused) from the start to the time `now`.
    pub fn elapsed_at(&self, now: u64) -> (r: u64)
        ensures
            r == self.running_at(now),
    {
        let end: u64 = match self.paused_since {
            Some(t) => t,
            None => now,
        };
        end.saturating_sub(self.paused_total)
    }

    /// Time spent running (not paused) since `start`.
    pub fn elapsed(&self) -> (r: u64)
        ensures
            exists|now: u64| r == #[trigger] self.running_at(now),
    {
        let now: u64 = self.now();
        self.elapsed_at(now)
    }

    /// Total time spent paused up to the time `now`, any pause still ongoing
    /// with it.
    pub fn paused_total_at(&self, now: u64) -> (r: u64)
        ensures
            r == self.paused_by(now),
    {
        match self.paused_since {
            Some(t) => self.paused_total.saturating_add(now.saturating_sub(t)),
            None => self.paused_total,
        }
    }

    /// Total time spent paused so far, any pause still ongoing with it.
    pub fn paused_total(&self) -> (r: u64)
        ensures
            exists|now: u64| r == #[trigger] self.paused_by(now),
            r >= self.pauses(),
            self.pause_start() is None ==> r == self.pauses(),
    {
        let now: u64 = self.now();
        self.paused_total_at(now)
    }
}

/// A paused clock stands still.
pub proof fn law_paused_clock_stands_still(clock: ActiveClock, a: u64, b: u64)
    requires
        clock.pause_start() is Some,
    ensures
        clock.running_at(a) == clock.running_at(b),
{
}

/// A pause leaves no trace in the running time: a clock that is paused at one
/// time and goes on at a later one shows, any time after, what it would have
/// shown the length of the pause earlier.
pub proof fn law_pause_does_not_count(
    before: ActiveClock,
    paused: ActiveClock,
    after: ActiveClock,
    pause: u64,
    resume: u64,
    now: u64,
)
    requires
        before.pause_start() is None,
        before.pauses() <= pause <= resume <= now,
        paused.is_switched(before, true, pause),
        after.is_switched(paused, false, resume),
    ensures
        after.running_at(now) == before.running_at((now - (resume - pause)) as u64),
        after.running_at(resume) == paused.running_at(resume),
{
}

/// Whether the clocks come one after the other by pausing and going on, at
/// times that don't run backwards, from one that has just been started.
pub open spec fn is_history(
    clocks: Seq<ActiveClock>,
    pauses: Seq<bool>,
    times: Seq<u64>,
    now: u64,
) -> bool {
    &&& clocks.len() == pauses.len() + 1 && times.len() == pauses.len()
    &&& clocks[0].pauses() == 0
    &&& clocks[0].is_timely(
        if times.len() > 0 {
            times[0]
        } else {
            now
        },
    )
    &&& forall|i: int|
        0 <= i < times.len() ==> (#[trigger] clocks[i + 1]).is_switched(
            clocks[i],
            pauses[i],
            times[i],
        )
    &&& forall|i: int, j: int|
        0 <= i <= j < times.len() ==> #[trigger] times[i] <= #[trigger] times[j] <= now
}

/// Pausing and going on keep a clock timely, however often they are repeated.
proof fn lemma_history_is_timely(
    clocks: Seq<ActiveClock>,
    pauses: Seq<bool>,
    times: Seq<u64>,
    now: u64,
    n: int,
)
    requires
        is_history(clocks, pauses, times, now),
        0 <= n <= times.len(),
    ensures
        clocks[n].is_timely(
            if n < times.len() {
                times[n]
            } else {
                now
            },
        ),
        clocks[n].origin() == clocks[0].origin(),
    decreases n,
{
    if n > 0 {
        lemma_history_is_timely(clocks, pauses, times, now, n - 1);
        assert(clocks[n - 1 + 1].is_switched(clocks[n - 1], pauses[n - 1], times[n - 1]));
        if n < times.len() {
            assert(times[n - 1] <= times[n]);
        } else {
            assert(times[n - 1] <= times[n - 1] <= now);
        }
    }
}

/// No moment is counted twice or lost: whatever pauses a clock has seen, a
/// pause that is still going on with them, its running time and its paused time
/// add up to the time since its start, which stays.
pub proof fn law_time_adds_up(
    clocks: Seq<ActiveClock>,
    pauses: Seq<bool>,
    times: Seq<u64>,
    now: u64,
)
    requires
        is_history(clocks, pauses, times, now),
    ensures
        clocks.last().running_at(now) + clocks.last().paused_by(now) == now,
        clocks.last().origin() == clocks[0].origin(),
{
    lemma_history_is_timely(clocks, pauses, times, now, times.len() as int);
}

/// The time that is left at the pace so far: nothing before the first item is
/// done and once all are.
pub open spec fn remaining_time(done: u64, total: u64, elapsed: u64) -> Option<nat> {
    if done == 0 || done >= total {
        None
    } else {
        Some((elapsed as nat * (total - done) as nat) / (done as nat))
    }
}

/// Estimates the time that is left from the pace so far.
pub fn estimate_remaining(done: u64, total: u64, elapsed: u64) -> (r: Option<u128>)
    ensures
        match r {
            Some(t) => remaining_time(done, total, elapsed) == Some(t as nat),
            None => remaining_time(done, total, elapsed) is None,
        },
{
    if done == 0 || done >= total {
        return None;
    }
    let left: u64 = total - done;
    assert(elapsed as u128 * left as u128 <= 0xffff_ffff_ffff_ffff * 0xffff_ffff_ffff_ffff)
        by (nonlinear_arith)
        requires
            elapsed <= 0xffff_ffff_ffff_ffff,
            left <= 0xffff_ffff_ffff_ffff,
    ;
    Some((elapsed as u128 * left as u128) / (done as u128))
}

/// The time that is left is what the rest takes at the pace so far, rounded down:
/// as much longer than the time so far as there is more left than done. Nothing
/// is said before anything is done, nor once everything is.
pub proof fn law_the_rest_takes_its_share(done: u64, total: u64, elapsed: u64)
    ensures
        remaining_time(done, total, elapsed) is Some <==> 0 < done < total,
        remaining_time(done, total, elapsed) matches Some(t) ==> {
            &&& t * done <= elapsed * (total - done)
            &&& elapsed * (total - done) < (t + 1) * done
        },
{
    if 0 < done < total {
        let a = elapsed as nat * (total - done) as nat;
        let d = done as nat;
        let t = a / d;
        assert(t * d <= a && a < (t + 1) * d) by (nonlinear_arith)
            requires
                d > 0,
                t == a / d,
        ;
        assert(a == elapsed * (total - done));
    }
}

/// Numbers of requests count up, and no two in a row are the same.
pub proof fn law_tickets_count_up(ticket: u64)
    ensures
        next_ticket(ticket) != ticket,
        ticket < u64::MAX ==> next_ticket(ticket) == ticket + 1,
        ticket == u64::MAX ==> next_ticket(ticket) == 0,
{
}

/// Counts and sums stop at the largest number there is, and differences at
/// nought.
pub proof fn law_numbers_stop_at_their_ends(n: usize, a: u64, b: u64)
    ensures
        n < usize::MAX ==> one_more(n) == n + 1,
        n == usize::MAX ==> one_more(n) == n,
        a + b <= u64::MAX ==> capped_add(a, b) == a + b,
        a + b > u64::MAX ==> capped_add(a, b) == u64::MAX,
        a >= b ==> floored_sub(a, b) == a - b,
        a < b ==> floored_sub(a, b) == 0,
{
}

/// What a clock shows: running, the time since its start less its pauses; paused,
/// the time at which the pause began less those before.
pub proof fn law_clocks_show_running_time(clock: ActiveClock, now: u64)
    requires
        clock.is_timely(now),
    ensures
        clock.pause_start() is None ==> clock.running_at(now) == now - clock.pauses(),
        clock.pause_start() is None ==> clock.paused_by(now) == clock.pauses(),
        clock.pause_start() matches Some(t) ==> clock.running_at(now) == t - clock.pauses(),
        clock.pause_start() matches Some(t) ==> clock.paused_by(now) == clock.pauses() + (now - t),
{
}

/// What pausing a clock and letting it go on do: a pause begins unless one is
/// going on, and ends with its length added to those before; anything else
/// changes nothing.
pub proof fn law_switching_a_clock(
    before: ActiveClock,
    after: ActiveClock,
    paused: bool,
    now: u64,
)
    requires
        after.is_switched(before, paused, now),
        before.is_timely(now),
    ensures
        after.origin() == before.origin(),
        after.is_timely(now),
        paused && before.pause_start() is None ==> after.pause_start() == Some(now)
            && after.pauses() == before.pauses(),
        paused && before.pause_start() is Some ==> after.pause_start() == before.pause_start()
            && after.pauses() == before.pauses(),
        !paused && before.pause_start() is None ==> after.pause_start() is None && after.pauses()
            == before.pauses(),
        !paused ==> (before.pause_start() matches Some(t) ==> after.pause_start() is None
            && after.pauses() == before.pauses() + (now - t)),
{
}

} // verus!
