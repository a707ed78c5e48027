//! Progress on the taskbar.

use vstd::prelude::*;

verus! {

/// How much of some work is done.
#[derive(Clone, Copy, Debug, PartialEq, Eq, Structural)]
pub struct Fraction {
    pub done: u64,
    pub total: u64,
}

/// What the window's taskbar button should show, mirroring the states of
/// Windows' `ITaskbarList3` progress overlay.
#[derive(Clone, Copy, Debug, PartialEq, Eq, Structural)]
pub enum TaskbarProgress {
    /// No work is going on.
    Hidden,
    /// Busy, but with no meaningful fraction yet (e.g. still walking folders).
    Indeterminate,
    /// The completed fraction.
    Normal(Fraction),
    /// Like `Normal`, but shown in the paused (yellow) style.
    Paused(Fraction),
}

/// The resolution of what is shown.
pub const SCALE: u64 = 1000;

impl Fraction {
    /// The fraction in thousandths, rounded; all of them if more than all is
    /// done, none of no work.
    pub open spec fn thousandths(self) -> u64 {
        if self.total == 0 {
            0
        } else if self.done >= self.total {
            SCALE
        } else {
            ((self.done as nat * 2000 + self.total as nat) / (self.total as nat * 2)) as u64
        }
    }

    /// The fraction rounded to thousandths.
    pub fn quantized(self) -> (r: Self)
        ensures
            r == (Fraction { done: self.thousandths(), total: SCALE }),
            r.done <= SCALE,
    {
        let done: u64 = if self.total == 0 {
            0
        } else if self.done >= self.total {
            SCALE
        } else {
            let twice: u128 = self.total as u128 * 2;
            let sum: u128 = self.done as u128 * 2000 + self.total as u128;
            assert(sum / twice <= 1000) by (nonlinear_arith)
                requires
                    twice > 0,
                    sum < 1001 * twice,
            ;
            (sum / twice) as u64
        };
        Fraction { done, total: SCALE }
    }
}

impl TaskbarProgress {
    /// The progress with its fraction rounded to thousandths.
    pub open spec fn rounded(self) -> TaskbarProgress {
        match self {
            TaskbarProgress::Normal(f) => TaskbarProgress::Normal(
                Fraction { done: f.thousandths(), total: SCALE },
            ),
            TaskbarProgress::Paused(f) => TaskbarProgress::Paused(
                Fraction { done: f.thousandths(), total: SCALE },
            ),
            other => other,
        }
    }

    /// Rounds the fraction to 0.1% so the button is only updated when the
    /// visible bar would actually move, not on every repaint.
    pub fn quantized(self) -> (r: Self)
        ensures
            r == self.rounded(),
    {
        match self {
            TaskbarProgress::Normal(f) => TaskbarProgress::Normal(f.quantized()),
            TaskbarProgress::Paused(f) => TaskbarProgress::Paused(f.quantized()),
            other => other,
        }
    }
}

/// Drives the progress overlay on the app's taskbar button, so a long scan or
/// delete stays visible while the window is minimized or behind others.
#[derive(Debug)]
pub struct Taskbar {
    /// What the button shows.
    pub last: Option<TaskbarProgress>,
}

impl Default for Taskbar {
    fn default() -> (r: Self)
        ensures
            r.last is None,
    {
        Taskbar { last: None }
    }
}

impl Taskbar {
    /// Gives what the button is to show, if that is not what it shows already.
    pub fn set(&mut self, progress: TaskbarProgress) -> (r: Option<TaskbarProgress>)
        ensures
            final(self).last == Some(progress.rounded()),
            r == (if old(self).last == Some(progress.rounded()) {
                None
            } else {
                Some(progress.rounded())
            }),
    {
        let progress: TaskbarProgress = progress.quantized();
        let same: bool = match self.last {
            Some(p) => p == progress,
            None => false,
        };
        if same {
            return None;
        }
        self.last = Some(progress);
        Some(progress)
    }
}

/// The shown fraction is the done one to within half a thousandth, and rounding
/// it again changes nothing.
pub proof fn law_rounding_is_close(f: Fraction)
    requires
        0 < f.total,
        f.done <= f.total,
    ensures
        2 * f.thousandths() * f.total <= 2 * SCALE * f.done + f.total,
        2 * SCALE * f.done <= 2 * f.thousandths() * f.total + f.total,
        TaskbarProgress::Normal(f).rounded().rounded() == TaskbarProgress::Normal(f).rounded(),
        TaskbarProgress::Paused(f).rounded().rounded() == TaskbarProgress::Paused(f).rounded(),
{
    let d = f.done as int;
    let t = f.total as int;
    if f.done < f.total {
        let x = (d * 2000 + t) / (t * 2);
        assert(x * (t * 2) <= d * 2000 + t < (x + 1) * (t * 2) && 0 <= x <= 1000) by (nonlinear_arith)
            requires
                x == (d * 2000 + t) / (t * 2),
                0 <= d < t,
        ;
        assert(f.thousandths() == x);
        assert((x + 1) * (t * 2) == x * (t * 2) + t * 2) by (nonlinear_arith);
        assert((2 * x) * t == x * (t * 2)) by (nonlinear_arith);
        assert((2 * x) * t <= 2000 * d + t);
        assert(2000 * d <= (2 * x) * t + t);
    }
    let k = f.thousandths();
    let g = Fraction { done: k, total: SCALE };
    assert(k <= 1000);
    if k < 1000 {
        assert((k as nat * 2000 + 1000) / 2000 == k as nat);
        assert(SCALE as nat * 2 == 2000);
    }
    assert(g.thousandths() == k);
}

/// What is shown keeps its kind, and its fraction is one of thousandths: none of
/// no work, and all of them once all is done.
pub proof fn law_shown_progress(f: Fraction)
    ensures
        TaskbarProgress::Hidden.rounded() is Hidden,
        TaskbarProgress::Indeterminate.rounded() is Indeterminate,
        TaskbarProgress::Normal(f).rounded() == TaskbarProgress::Normal(
            Fraction { done: f.thousandths(), total: 1000 },
        ),
        TaskbarProgress::Paused(f).rounded() == TaskbarProgress::Paused(
            Fraction { done: f.thousandths(), total: 1000 },
        ),
        f.total == 0 ==> f.thousandths() == 0,
        f.total > 0 && f.done >= f.total ==> f.thousandths() == 1000,
        f.total > 0 && f.done < f.total ==> 2 * f.thousandths() * f.total <= 2000 * f.done + f.total
            < 2 * f.thousandths() * f.total + 2 * f.total,
{
    if f.total > 0 && f.done < f.total {
        let d = f.done as int;
        let t = f.total as int;
        let x = (d * 2000 + t) / (t * 2);
        assert(x * (t * 2) <= d * 2000 + t < (x + 1) * (t * 2) && 0 <= x <= 1000) by (nonlinear_arith)
            requires
                x == (d * 2000 + t) / (t * 2),
                0 <= d < t,
        ;
        assert(f.thousandths() == x);
        assert((x + 1) * (t * 2) == x * (t * 2) + t * 2) by (nonlinear_arith);
        assert((2 * x) * t == x * (t * 2)) by (nonlinear_arith);
    }
}

} // verus!
