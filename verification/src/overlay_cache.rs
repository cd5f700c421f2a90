//! The last overlay that was made, kept for frames without metadata.

use vstd::prelude::*;

use crate::overlay_intent::LabelIntent;
use crate::render::{clone_commands, AnalyticsFrame, DrawCommand};

verus! {

/// Whether the cached overlay is still shown. Without a cached overlay there is nothing to
/// show. A lifetime of `u64::MAX` never ends, and neither does one while the running time
/// is not known.
pub open spec fn reusable(
    running_time: Option<u64>,
    last_update_running_time: Option<u64>,
    expire_overlay: u64,
) -> bool {
    match last_update_running_time {
        Some(last) => expire_overlay == u64::MAX || match running_time {
            Some(now) => crate::geometry::int_max(now - last, 0) < expire_overlay,
            None => true,
        },
        None => false,
    }
}

/// Whether the overlay that was made at `last_update_running_time` is shown again for a
/// frame without metadata.
pub fn should_reuse_cached_overlay(
    running_time: Option<u64>,
    last_update_running_time: Option<u64>,
    expire_overlay: u64,
) -> (r: bool)
    ensures
        r == reusable(running_time, last_update_running_time, expire_overlay),
{
    let last: u64 = match last_update_running_time {
        Some(last) => last,
        None => return false,
    };
    if expire_overlay == u64::MAX {
        return true;
    }
    let now: u64 = match running_time {
        Some(now) => now,
        None => return true,
    };
    let elapsed: u64 = now.saturating_sub(last);
    elapsed < expire_overlay
}

/// The last overlay, and when it was made.
#[derive(Debug)]
pub struct OverlayCache {
    pub analytics: AnalyticsFrame,
    pub commands: Vec<DrawCommand>,
    pub last_update_running_time: Option<u64>,
}

/// An overlay: what the frame holds, what is drawn, and the labels left to a compositor.
#[derive(Debug)]
pub struct Overlay {
    pub analytics: AnalyticsFrame,
    pub commands: Vec<DrawCommand>,
    pub deferred: Vec<LabelIntent>,
}

/// Nothing is counted in the frame.
pub open spec fn blank(analytics: AnalyticsFrame) -> bool {
    &&& analytics.object_count == 0
    &&& analytics.segment_count == 0
    &&& analytics.keypoint_count == 0
    &&& analytics.semantic_tag is None
}

impl OverlayCache {
    /// The cache holds nothing.
    pub open spec fn cleared(self) -> bool {
        &&& blank(self.analytics)
        &&& self.commands@.len() == 0
        &&& self.last_update_running_time is None
    }

    pub fn new() -> (r: Self)
        ensures
            r.cleared(),
    {
        OverlayCache {
            analytics: AnalyticsFrame::default(),
            commands: Vec::new(),
            last_update_running_time: None,
        }
    }

    pub fn clear(&mut self)
        ensures
            final(self).cleared(),
    {
        self.analytics = AnalyticsFrame::default();
        self.commands.clear();
        self.last_update_running_time = None;
    }

    /// The overlay for a frame. `fresh` is the overlay made from the frame's metadata; a
    /// frame with none shows the cached overlay until that expires.
    pub fn overlay_for(
        &mut self,
        fresh: Option<Overlay>,
        running_time: Option<u64>,
        expire_overlay: u64,
    ) -> (r: Overlay)
        ensures
            fresh matches Some(overlay) ==> {
                &&& r == overlay
                &&& final(self).analytics == overlay.analytics
                &&& final(self).commands@ == overlay.commands@
                &&& final(self).last_update_running_time == running_time
            },
            fresh is None && reusable(
                running_time,
                old(self).last_update_running_time,
                expire_overlay,
            ) ==> {
                &&& *final(self) == *old(self)
                &&& r.analytics == old(self).analytics
                &&& r.commands@ == old(self).commands@
                &&& r.deferred@.len() == 0
            },
            fresh is None && !reusable(
                running_time,
                old(self).last_update_running_time,
                expire_overlay,
            ) ==> {
                &&& final(self).cleared()
                &&& blank(r.analytics)
                &&& r.commands@.len() == 0
                &&& r.deferred@.len() == 0
            },
    {
        match fresh {
            Some(overlay) => {
                self.analytics = overlay.analytics.clone();
                self.commands = clone_commands(&overlay.commands);
                self.last_update_running_time = running_time;
                overlay
            },
            None => if should_reuse_cached_overlay(
                running_time,
                self.last_update_running_time,
                expire_overlay,
            ) {
                Overlay {
                    analytics: self.analytics.clone(),
                    commands: clone_commands(&self.commands),
                    deferred: Vec::new(),
                }
            } else {
                self.clear();
                Overlay {
                    analytics: AnalyticsFrame::default(),
                    commands: Vec::new(),
                    deferred: Vec::new(),
                }
            },
        }
    }
}

/// An overlay that has expired stays expired: a cached overlay that is not shown at some
/// running time is not shown at a later one.
pub proof fn law_expired_overlays_stay_expired(
    earlier: u64,
    later: u64,
    last_update_running_time: Option<u64>,
    expire_overlay: u64,
)
    requires
        earlier <= later,
        !reusable(Some(earlier), last_update_running_time, expire_overlay),
    ensures
        !reusable(Some(later), last_update_running_time, expire_overlay),
{
}

/// A cached overlay is shown until its lifetime is over, counted from when it was made; one
/// whose lifetime has no end, or whose age is not known, is shown on. Without a lifetime it
/// is not shown at all, and neither where none was made.
pub proof fn law_overlays_are_shown_for_their_lifetime(
    now: u64,
    last: u64,
    expire_overlay: u64,
    running_time: Option<u64>,
)
    ensures
        reusable(Some(now), Some(last), expire_overlay) == (expire_overlay == u64::MAX || (
        expire_overlay > 0 && now < last + expire_overlay)),
        reusable(None, Some(last), expire_overlay),
        !reusable(running_time, None, expire_overlay),
{
}

} // verus!
