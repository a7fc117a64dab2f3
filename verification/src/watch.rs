//! The watch loop's decision core: debouncing filesystem change bursts.
//!
//! The loop around it blocks on change notifications with a periodic
//! timeout; every received event runs through `Debouncer::step`, and only
//! a `Settle` action re-runs the locate-parse-publish pipeline.  Timeouts
//! alone never trigger a re-parse, and a disconnected notification channel
//! ends the loop.
use vstd::prelude::*;

verus! {

/// Bursts of change events closer together than this settle only once.
pub const DEBOUNCE_MS: u64 = 500;

/// The grace wait before reading a freshly changed file.
pub const SETTLE_DELAY_MS: u64 = 100;

/// The periodic wake-up of the blocking receive.
pub const POLL_TIMEOUT_MS: u64 = 1000;

/// One observation of the notification channel, with a monotonic
/// millisecond clock reading for change events.
#[derive(Debug, Clone, Copy, PartialEq, Eq, Structural)]
pub enum WatchEvent {
    Changed(u64),
    Timeout,
    Disconnected,
}

/// What the loop does next with an observation.
#[derive(Debug, Clone, Copy, PartialEq, Eq, Structural)]
pub enum WatchAction {
    Ignore,
    Settle,
    Exit,
}

/// Elapsed time on a clock that may not have advanced.
pub open spec fn spec_elapsed(now: u64, since: u64) -> int {
    if now >= since {
        now - since
    } else {
        0
    }
}

/// The debouncer: remembers when the last processed settle happened.
#[derive(Debug, Clone, Copy, PartialEq, Eq, Structural)]
pub struct Debouncer {
    pub last_settle_ms: u64,
}

impl Debouncer {
    /// Starts the debounce window at the loop's start time, so a burst
    /// already in flight at startup is not re-parsed once per event.
    pub fn new(now_ms: u64) -> (r: Debouncer)
        ensures
            r.last_settle_ms == now_ms,
    {
        Debouncer { last_settle_ms: now_ms }
    }

    /// Decides one observation: a change event settles exactly when the
    /// debounce window since the last settle has fully elapsed, and then
    /// opens a new window at its own time; timeouts keep waiting and a
    /// disconnect ends the loop.  The window moves only on a settle.
    pub fn step(&mut self, ev: WatchEvent) -> (a: WatchAction)
        ensures
            match ev {
                WatchEvent::Changed(t) => {
                    if spec_elapsed(t, old(self).last_settle_ms) < DEBOUNCE_MS {
                        a == WatchAction::Ignore && *final(self) == *old(self)
                    } else {
                        a == WatchAction::Settle && final(self).last_settle_ms == t
                    }
                },
                WatchEvent::Timeout => a == WatchAction::Ignore && *final(self) == *old(self),
                WatchEvent::Disconnected => a == WatchAction::Exit && *final(self) == *old(self),
            },
    {
        match ev {
            WatchEvent::Changed(t) => {
                let elapsed = if t >= self.last_settle_ms {
                    t - self.last_settle_ms
                } else {
                    0
                };
                if elapsed < DEBOUNCE_MS {
                    WatchAction::Ignore
                } else {
                    self.last_settle_ms = t;
                    WatchAction::Settle
                }
            },
            WatchEvent::Timeout => WatchAction::Ignore,
            WatchEvent::Disconnected => WatchAction::Exit,
        }
    }
}

/// Of two change events, the second settles exactly when it comes at
/// least the debounce window after the first settle: a burst collapses to
/// one re-parse, spaced events re-parse once each.
pub proof fn lemma_debounce_pair(start: u64, t1: u64, gap: u64)
    requires
        start + DEBOUNCE_MS <= t1,
        t1 + gap <= u64::MAX,
    ensures
        spec_elapsed(t1, start) >= DEBOUNCE_MS,
        gap < DEBOUNCE_MS ==> spec_elapsed((t1 + gap) as u64, t1) < DEBOUNCE_MS,
        gap >= DEBOUNCE_MS ==> spec_elapsed((t1 + gap) as u64, t1) >= DEBOUNCE_MS,
{
}

} // verus!
