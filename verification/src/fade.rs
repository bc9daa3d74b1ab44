//! Fading effects that advance one step per period. Durations are counted in nanoseconds.
use vstd::prelude::*;

verus! {

/// The length of one animation frame: a sixtieth of a second, rounded down to whole
/// microseconds.
pub const FRAME_DURATION_NANOS: u64 = 16_666_000;

/// The time between events when `num_per_frame` events happen each frame. The number must not
/// be zero.
pub fn period_per_frame(num_per_frame: u32) -> (nanos: u64)
    requires
        num_per_frame > 0,
    ensures
        nanos == FRAME_DURATION_NANOS / (num_per_frame as u64),
{
    FRAME_DURATION_NANOS / (num_per_frame as u64)
}

/// How far a fade has progressed: a step out of 256, or complete.
#[derive(Clone, Copy, Debug, PartialEq, Eq, Structural)]
pub enum FadeProgress {
    Fading(u8),
    Complete,
}

impl FadeProgress {
    /// The step reached, or `None` once the fade is complete.
    pub fn fading(self) -> (r: Option<u8>)
        ensures
            r == match self {
                FadeProgress::Fading(p) => Some(p),
                FadeProgress::Complete => None::<u8>,
            },
    {
        match self {
            FadeProgress::Fading(progress) => Some(progress),
            FadeProgress::Complete => None,
        }
    }

    pub fn is_complete(self) -> (b: bool)
        ensures
            b == (self is Complete),
    {
        match self {
            FadeProgress::Fading(_) => false,
            FadeProgress::Complete => true,
        }
    }
}

impl Default for FadeProgress {
    /// A fade that has not started.
    fn default() -> (p: FadeProgress)
        ensures
            p == FadeProgress::Fading(0),
    {
        FadeProgress::Fading(0)
    }
}

/// The progress that follows `p`: the next step, complete after step 255, and complete for
/// ever after.
pub open spec fn next_progress(p: FadeProgress) -> FadeProgress {
    match p {
        FadeProgress::Complete => FadeProgress::Complete,
        FadeProgress::Fading(n) => if n < 255 {
            FadeProgress::Fading((n + 1) as u8)
        } else {
            FadeProgress::Complete
        },
    }
}

/// A fade over a full duration, advancing one step out of 256 each period.
#[derive(Clone, Copy, Debug, PartialEq, Eq, Structural)]
pub struct FadeState {
    pub progress: FadeProgress,
    /// The time between steps, in nanoseconds.
    pub period: u64,
}

impl FadeState {
    /// A fade over `duration_nanos` that has not started.
    pub fn new(duration_nanos: u64) -> (s: FadeState)
        ensures
            s.progress == FadeProgress::Fading(0),
            s.period == duration_nanos / 256,
    {
        Self::new_with_progress(duration_nanos, FadeProgress::default())
    }

    /// A fade over `full_duration_nanos` that has reached `progress`.
    pub fn new_with_progress(full_duration_nanos: u64, progress: FadeProgress) -> (s: FadeState)
        ensures
            s.progress == progress,
            s.period == full_duration_nanos / 256,
    {
        let period = full_duration_nanos / 256;
        FadeState { progress, period }
    }

    /// The step reached, or `None` once the fade is complete.
    pub fn fading(self) -> (r: Option<u8>)
        ensures
            r == match self.progress {
                FadeProgress::Fading(p) => Some(p),
                FadeProgress::Complete => None::<u8>,
            },
    {
        self.progress.fading()
    }

    /// Advances the fade by one step, returning the new progress and the time until the next
    /// step.
    pub fn tick(&mut self) -> (r: (FadeProgress, u64))
        ensures
            final(self).progress == next_progress(old(self).progress),
            final(self).period == old(self).period,
            r == (final(self).progress, old(self).period),
    {
        self.progress = match self.progress {
            FadeProgress::Complete => FadeProgress::Complete,
            FadeProgress::Fading(progress) => match progress.checked_add(1) {
                Some(progress) => FadeProgress::Fading(progress),
                None => FadeProgress::Complete,
            },
        };
        (self.progress, self.period)
    }
}

/// The progress after `n` ticks from `p`.
pub open spec fn progress_after(p: FadeProgress, n: nat) -> FadeProgress
    decreases n,
{
    if n == 0 {
        p
    } else {
        next_progress(progress_after(p, (n - 1) as nat))
    }
}

/// A fade that has not started is at step `n` after `n` ticks, for `n` below 256, and is
/// complete after 256 ticks and for ever after.
pub proof fn law_fade_completes_after_256_ticks(n: nat)
    ensures
        n < 256 ==> progress_after(FadeProgress::Fading(0), n) == FadeProgress::Fading(n as u8),
        n >= 256 ==> progress_after(FadeProgress::Fading(0), n) == FadeProgress::Complete,
    decreases n,
{
    if n > 0 {
        law_fade_completes_after_256_ticks((n - 1) as nat);
    }
}

} // verus!
