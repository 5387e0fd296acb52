//! Double-click detection: decides, from plain timestamps, whether a
//! click is the second click of a double click. The host samples the
//! pointer and the clock; the decision itself lives here.

use vstd::prelude::*;

use crate::state::PileId;

verus! {

/// Two clicks on the same target within this window, in milliseconds,
/// form a double click.
pub const DOUBLE_CLICK_WINDOW_MS: u64 = 500;

/// What a click landed on: a pile and the position of the clicked card
/// within it, counted from the bottom.
#[derive(Clone, Copy, PartialEq, Eq, Structural, Debug)]
pub struct ClickTarget {
    pub pile: PileId,
    pub index: usize,
}

/// Remembers the most recent single click, so the next click can be
/// judged against it.
#[derive(Clone, Copy, Debug)]
pub struct ClickTracker {
    pub last_target: Option<ClickTarget>,
    pub last_time_ms: u64,
}

/// A tracker that has seen no click yet.
pub fn new_click_tracker() -> (r: ClickTracker)
    ensures
        r.last_target is None,
{
    ClickTracker { last_target: None, last_time_ms: 0 }
}

/// The click at `now_ms` on `target` completes a double click: the
/// previous click hit the same target and lies within the window.
pub open spec fn spec_is_double_click(t: ClickTracker, target: ClickTarget, now_ms: u64) -> bool {
    match t.last_target {
        Some(prev) => prev == target && t.last_time_ms <= now_ms && now_ms - t.last_time_ms
            < DOUBLE_CLICK_WINDOW_MS,
        None => false,
    }
}

/// Feeds one click into the tracker and returns whether it completed a
/// double click. A completed double click resets the tracker — a third
/// click starts over — while a single click is remembered with its time.
pub fn observe_click(tracker: &mut ClickTracker, target: ClickTarget, now_ms: u64) -> (r: bool)
    ensures
        r == spec_is_double_click(*old(tracker), target, now_ms),
        r ==> final(tracker).last_target is None,
        !r ==> final(tracker).last_target == Some(target) && final(tracker).last_time_ms == now_ms,
{
    let is_double = match tracker.last_target {
        Some(prev) => prev == target && tracker.last_time_ms <= now_ms && now_ms
            - tracker.last_time_ms < DOUBLE_CLICK_WINDOW_MS,
        None => false,
    };
    if is_double {
        tracker.last_target = None;
        true
    } else {
        tracker.last_target = Some(target);
        tracker.last_time_ms = now_ms;
        false
    }
}

} // verus!
