//! The steps that resolve one chunk into queued audio. The caller performs
//! each step (open, fetch, adjust, enqueue) and reports what came of it.
use vstd::prelude::*;

verus! {

/// What came of the last step taken for a chunk.
#[derive(Clone, Copy, Debug, PartialEq, Eq, Structural)]
pub enum ClipEvent {
    /// The cache file opened.
    Found,
    /// The cache file is not there or did not open.
    Missing,
    /// The backend answered with success and the clip was written.
    Fetched,
    /// The backend answered with this non-success status.
    FetchFailed(u16),
    /// The clip was rewritten at the configured speed.
    SpeedAdjusted,
}

/// The next step for a chunk.
#[derive(Clone, Copy, Debug, PartialEq, Eq, Structural)]
pub enum ClipAction {
    /// Open the clip and append it to the playback queue.
    Enqueue,
    /// Ask the backend for the clip and write it to the cache file.
    Fetch,
    /// Rewrite the clip at the configured speed.
    AdjustSpeed,
    /// Stop the whole run, reporting the status.
    Abort(u16),
}

/// A hit is queued as it is; a miss is fetched; a fetched clip is adjusted
/// when the speed is not the normal one, then queued; a failed fetch ends the
/// run.
pub open spec fn clip_step(event: ClipEvent, adjust_speed: bool) -> ClipAction {
    match event {
        ClipEvent::Found => ClipAction::Enqueue,
        ClipEvent::Missing => ClipAction::Fetch,
        ClipEvent::Fetched => if adjust_speed {
            ClipAction::AdjustSpeed
        } else {
            ClipAction::Enqueue
        },
        ClipEvent::FetchFailed(status) => ClipAction::Abort(status),
        ClipEvent::SpeedAdjusted => ClipAction::Enqueue,
    }
}

/// The step that follows `event`; `adjust_speed` tells whether the configured
/// playback speed differs from the normal one.
pub fn next_action(event: ClipEvent, adjust_speed: bool) -> (r: ClipAction)
    ensures
        r == clip_step(event, adjust_speed),
{
    match event {
        ClipEvent::Found => ClipAction::Enqueue,
        ClipEvent::Missing => ClipAction::Fetch,
        ClipEvent::Fetched => if adjust_speed {
            ClipAction::AdjustSpeed
        } else {
            ClipAction::Enqueue
        },
        ClipEvent::FetchFailed(status) => ClipAction::Abort(status),
        ClipEvent::SpeedAdjusted => ClipAction::Enqueue,
    }
}

/// A hit is queued at once; a miss is fetched, then queued, after an
/// adjustment when the speed asks for one.
pub proof fn lemma_miss_resolves(adjust_speed: bool)
    ensures
        clip_step(ClipEvent::Found, adjust_speed) == ClipAction::Enqueue,
        clip_step(ClipEvent::Missing, adjust_speed) == ClipAction::Fetch,
        !adjust_speed ==> clip_step(ClipEvent::Fetched, adjust_speed) == ClipAction::Enqueue,
        adjust_speed ==> clip_step(ClipEvent::Fetched, adjust_speed) == ClipAction::AdjustSpeed
            && clip_step(ClipEvent::SpeedAdjusted, adjust_speed) == ClipAction::Enqueue,
{
}

} // verus!
