//! Counting frames to report the frame rate regularly.
use vstd::prelude::*;

verus! {

/// How often (in milliseconds) the frame rate is reported. Longer times lead
/// to more delay and more smoothing.
pub const REPORT_INTERVAL_MS: u64 = 250u64;

/// Counts the frames drawn since the frame rate was last reported.
pub struct FpsTimer {
    frames_since_last_report: u32,
}

impl View for FpsTimer {
    type V = nat;

    closed spec fn view(&self) -> nat {
        self.frames_since_last_report as nat
    }
}

impl FpsTimer {
    /// Starts counting with no frame drawn.
    pub fn new() -> (r: Self)
        ensures
            r@ == 0,
    {
        FpsTimer { frames_since_last_report: 0 }
    }

    /// The number of frames drawn since the last report.
    pub fn frames(&self) -> (r: u32)
        ensures
            r == self@,
    {
        self.frames_since_last_report
    }

    /// Counts one more drawn frame.
    pub fn register_frame(&mut self)
        requires
            old(self)@ < u32::MAX,
        ensures
            final(self)@ == old(self)@ + 1,
    {
        self.frames_since_last_report = self.frames_since_last_report + 1;
    }

    /// Once `elapsed_ms` milliseconds have passed since the last report
    /// (at least `REPORT_INTERVAL_MS`), returns the number of frames drawn in
    /// that time and starts counting anew; returns `None` before.
    pub fn take_report(&mut self, elapsed_ms: u64) -> (r: Option<u32>)
        ensures
            elapsed_ms >= REPORT_INTERVAL_MS ==> r == Some(old(self)@ as u32) && final(self)@ == 0,
            elapsed_ms < REPORT_INTERVAL_MS ==> r is None && final(self)@ == old(self)@,
    {
        if elapsed_ms >= REPORT_INTERVAL_MS {
            let frames = self.frames_since_last_report;
            self.frames_since_last_report = 0;
            Some(frames)
        } else {
            None
        }
    }
}

} // verus!
