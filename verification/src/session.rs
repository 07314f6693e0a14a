//! The decisions the viewer's event loop makes between frames: when a
//! `--watch` tick is owed, how long a wait may block so that tick is never
//! late, and whether a reload failure is news.
//!
//! Times are milliseconds on the caller's monotonic clock. The loop reads
//! the clock and does the waiting; what a reading means is decided here.

use vstd::prelude::*;
use crate::text::{push_str, str_eq};

verus! {

/// How long a resize burst is drained before one relayout commits to it.
pub const RESIZE_DEBOUNCE_MS: u64 = 50;

/// The longest one resize burst may go on coalescing, however many events
/// are still arriving.
pub const RESIZE_BURST_MAX_MS: u64 = 200;

/// How often `--watch` checks whether the document changed: the worst-case
/// delay between an external write and the repaint.
pub const WATCH_POLL_INTERVAL_MS: u64 = 250;

/// How long has passed from `then` to `now`; a clock that reads earlier
/// than `then` has seen none pass.
pub open spec fn elapsed(now: u64, then: u64) -> int {
    if now >= then { now - then } else { 0 }
}

/// What is left of the watch interval `since` milliseconds into it.
pub open spec fn left_of_tick(since: int) -> int {
    if since < WATCH_POLL_INTERVAL_MS { WATCH_POLL_INTERVAL_MS - since } else { 0 }
}

pub open spec fn min_of(a: int, b: int) -> int {
    if a <= b { a } else { b }
}

/// The reload message for `reason`.
pub open spec fn reload_failure_text(reason: Seq<char>) -> Seq<char> {
    "reload failed: "@ + reason
}

/// What reporting the failure `reason` does, given the last failure shown:
/// the message to show now, if it is news, and the failure shown last after.
pub open spec fn report_failure(last: Option<Seq<char>>, reason: Seq<char>) -> (Option<Seq<char>>, Option<Seq<char>>) {
    let message = reload_failure_text(reason);
    if last == Some(message) { (None, last) } else { (Some(message), Some(message)) }
}

/// The `--watch` schedule and the reload bookkeeping of one session.
#[derive(Debug)]
pub struct Watch {
    enabled: bool,
    last_tick: u64,
    loaded_at: u64,
    last_failure: Option<String>,
}

/// A [`Watch`], as a value.
pub ghost struct WatchView {
    pub enabled: bool,
    /// When the last watch tick ran.
    pub last_tick: u64,
    /// When the document on screen was read: advanced by a successful load
    /// only, so a file that comes back unchanged after a failure is still
    /// noticed.
    pub loaded_at: u64,
    /// The reload failure already on the status row.
    pub last_failure: Option<Seq<char>>,
}

impl View for Watch {
    type V = WatchView;

    closed spec fn view(&self) -> WatchView {
        WatchView {
            enabled: self.enabled,
            last_tick: self.last_tick,
            loaded_at: self.loaded_at,
            last_failure: match &self.last_failure {
                Some(s) => Some(s@),
                None => None,
            },
        }
    }
}

impl Watch {
    /// A session whose document was read at `loaded_at`, watched or not.
    pub fn new(enabled: bool, loaded_at: u64, now: u64) -> (w: Watch)
        ensures
            w@ == (WatchView { enabled, last_tick: now, loaded_at, last_failure: None }),
    {
        Watch { enabled, last_tick: now, loaded_at, last_failure: None }
    }

    /// Whether `--watch` is on.
    pub fn enabled(&self) -> (r: bool)
        ensures
            r == self@.enabled,
    {
        self.enabled
    }

    /// When the document on screen was read.
    pub fn loaded_at(&self) -> (t: u64)
        ensures
            t == self@.loaded_at,
    {
        self.loaded_at
    }

    /// How long the loop may block at `now` before the next tick is owed:
    /// the wait shrinks as the interval is used up, so a stream of events
    /// cannot keep resetting it.
    pub fn until_next_tick(&self, now: u64) -> (w: u64)
        ensures
            w == left_of_tick(elapsed(now, self@.last_tick)),
    {
        let since = if now >= self.last_tick { now - self.last_tick } else { 0 };
        if since < WATCH_POLL_INTERVAL_MS { WATCH_POLL_INTERVAL_MS - since } else { 0 }
    }

    /// How long a resize drain may wait at `now` for its next event when it
    /// must stop collecting at `collect_until`: the debounce quantum, what is
    /// left of the burst, and — under `--watch` — what is left of the tick,
    /// whichever is least. Zero means a deadline has come.
    pub fn debounce_wait(&self, now: u64, collect_until: u64) -> (w: u64)
        ensures
            w == ({
                let burst = min_of(RESIZE_DEBOUNCE_MS as int, elapsed(collect_until, now));
                if self@.enabled { min_of(burst, left_of_tick(elapsed(now, self@.last_tick))) } else { burst }
            }),
            self@.enabled ==> w <= left_of_tick(elapsed(now, self@.last_tick)),
            w <= RESIZE_DEBOUNCE_MS,
    {
        let left = if collect_until >= now { collect_until - now } else { 0 };
        let mut wait = if RESIZE_DEBOUNCE_MS <= left { RESIZE_DEBOUNCE_MS } else { left };
        if self.enabled {
            let tick = self.until_next_tick(now);
            if tick < wait {
                wait = tick;
            }
        }
        wait
    }

    /// Whether a watch tick is owed at `now` — on the clock, not on an idle
    /// keyboard — starting the next interval when it is.
    pub fn tick_due(&mut self, now: u64) -> (due: bool)
        ensures
            due == (old(self)@.enabled && elapsed(now, old(self)@.last_tick) >= WATCH_POLL_INTERVAL_MS),
            due ==> final(self)@ == (WatchView { last_tick: now, ..old(self)@ }),
            !due ==> final(self)@ == old(self)@,
    {
        let since = if now >= self.last_tick { now - self.last_tick } else { 0 };
        if !self.enabled || since < WATCH_POLL_INTERVAL_MS {
            return false;
        }
        self.last_tick = now;
        true
    }

    /// A reload attempted at `attempted_at` succeeded: the document on screen
    /// dates from then, and no failure stands.
    pub fn reloaded(&mut self, attempted_at: u64)
        ensures
            final(self)@ == (WatchView { loaded_at: attempted_at, last_failure: None, ..old(self)@ }),
    {
        self.loaded_at = attempted_at;
        self.last_failure = None;
    }

    /// A reload failed for `reason`: the status message to show, or `None`
    /// when it is the one already showing, so a file that stays missing is
    /// reported once rather than on every tick.
    pub fn reload_failed(&mut self, reason: &str) -> (shown: Option<String>)
        ensures
            ({
                let (show, last) = report_failure(old(self)@.last_failure, reason@);
                &&& final(self)@ == (WatchView { last_failure: last, ..old(self)@ })
                &&& match shown {
                    Some(s) => show == Some(s@),
                    None => show is None,
                }
            }),
    {
        let mut message = String::new();
        push_str(&mut message, "reload failed: ");
        push_str(&mut message, reason);
        proof {
            reveal_strlit("reload failed: ");
        }
        assert(message@ == reload_failure_text(reason@));
        let repeat = match &self.last_failure {
            Some(last) => str_eq(last.as_str(), message.as_str()),
            None => false,
        };
        if repeat {
            return None;
        }
        self.last_failure = Some(message.clone());
        Some(message)
    }
}

/// A reload that keeps failing for the same reason is reported once: the
/// second report of it shows nothing and changes nothing.
pub proof fn law_a_failure_that_persists_is_reported_once(last: Option<Seq<char>>, reason: Seq<char>)
    ensures
        report_failure(report_failure(last, reason).1, reason).0 is None,
        report_failure(report_failure(last, reason).1, reason).1 == report_failure(last, reason).1,
{
}

/// A different failure is always news: it is shown, and becomes the one
/// showing.
pub proof fn law_a_new_failure_is_always_shown(last: Option<Seq<char>>, reason: Seq<char>)
    requires
        last != Some(reload_failure_text(reason)),
    ensures
        report_failure(last, reason) == (Some(reload_failure_text(reason)), Some(reload_failure_text(reason))),
{
}

} // verus!
