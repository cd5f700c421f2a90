use gstoverlays::attach::{
    decide_attach_mode, AllocationAnswer, AttachError, AttachNegotiation, AttachStep,
};
use gstoverlays::lifecycle::{LifecycleEventKind, StreamState};
use gstoverlays::overlay_cache::{should_reuse_cached_overlay, Overlay, OverlayCache};
use gstoverlays::render::{AnalyticsFrame, DrawCommand};

const SECOND: u64 = 1_000_000_000;

#[test]
fn imp_decide_attach_mode_upstream_meta_always_attaches() {
    let attach = decide_attach_mode(true, false, false, true).unwrap();
    assert!(attach);
}

#[test]
fn imp_decide_attach_mode_caps_and_alloc_meta_attaches() {
    let attach = decide_attach_mode(false, true, true, true).unwrap();
    assert!(attach);
}

#[test]
fn imp_decide_attach_mode_caps_meta_without_alloc_prefers_blend_if_possible() {
    let attach = decide_attach_mode(false, true, false, true).unwrap();
    assert!(!attach);
}

#[test]
fn imp_decide_attach_mode_caps_meta_without_alloc_forces_attach_when_cannot_blend() {
    let attach = decide_attach_mode(false, true, false, false).unwrap();
    assert!(attach);
}

#[test]
fn imp_decide_attach_mode_without_meta_and_without_blend_support_fails() {
    let result = decide_attach_mode(false, false, false, false);
    assert!(result.is_err());
}

#[test]
fn imp_decide_attach_mode_without_meta_but_with_blend_support_blends() {
    let attach = decide_attach_mode(false, false, false, true).unwrap();
    assert!(!attach);
}

#[test]
fn stream_state_defaults_to_not_flushing_or_eos() {
    let state = StreamState::default();

    assert!(!state.flushing);
    assert!(!state.eos);
}

#[test]
fn clear_overlay_cache_resets_cached_commands() {
    let mut cache = OverlayCache::new();
    cache.analytics.object_count = 1;
    cache.commands.push(DrawCommand::NoOp);
    cache.last_update_running_time = Some(SECOND);

    cache.clear();

    assert_eq!(cache.analytics.object_count, 0);
    assert!(cache.commands.is_empty());
    assert_eq!(cache.last_update_running_time, None);
}

#[test]
fn reset_stream_state_clears_flags() {
    let mut state = StreamState { eos: true, flushing: true };

    state.reset();

    assert!(!state.flushing);
    assert!(!state.eos);
}

#[test]
fn expire_overlay_none_never_expires_cached_overlay() {
    assert!(should_reuse_cached_overlay(
        Some(100 * SECOND),
        Some(SECOND),
        u64::MAX,
    ));
}

#[test]
fn expire_overlay_reuses_cached_overlay_within_window() {
    assert!(should_reuse_cached_overlay(
        Some(5 * SECOND),
        Some(4 * SECOND),
        2 * SECOND,
    ));
}

#[test]
fn expire_overlay_drops_cached_overlay_after_window() {
    assert!(!should_reuse_cached_overlay(
        Some(8 * SECOND),
        Some(4 * SECOND),
        2 * SECOND,
    ));
}

#[test]
fn expiry_edges() {
    // Nothing cached.
    assert!(!should_reuse_cached_overlay(Some(1), None, u64::MAX));
    // The running time is not known.
    assert!(should_reuse_cached_overlay(None, Some(1), 0));
    // Exactly at the end of the window, and a clock that went back.
    assert!(!should_reuse_cached_overlay(Some(3), Some(1), 2));
    assert!(should_reuse_cached_overlay(Some(1), Some(3), 1));
    assert!(!should_reuse_cached_overlay(Some(1), Some(3), 0));
}

fn overlay(objects: usize) -> Overlay {
    let mut analytics = AnalyticsFrame::default();
    analytics.object_count = objects;
    Overlay {
        analytics,
        commands: vec![DrawCommand::NoOp],
        deferred: Vec::new(),
    }
}

#[test]
fn a_cached_overlay_is_shown_until_it_expires() {
    let mut cache = OverlayCache::new();
    let shown = cache.overlay_for(Some(overlay(3)), Some(SECOND), SECOND);
    assert_eq!(shown.analytics.object_count, 3);

    let shown = cache.overlay_for(None, Some(SECOND + 5), SECOND);
    assert_eq!(shown.analytics.object_count, 3);
    assert_eq!(shown.commands, vec![DrawCommand::NoOp]);

    let shown = cache.overlay_for(None, Some(3 * SECOND), SECOND);
    assert_eq!(shown.analytics.object_count, 0);
    assert!(shown.commands.is_empty());

    // An overlay that has expired stays expired.
    let shown = cache.overlay_for(None, Some(4 * SECOND), SECOND);
    assert!(shown.commands.is_empty());
    assert_eq!(cache.last_update_running_time, None);
}

#[test]
fn frames_are_refused_after_the_end_and_while_flushing() {
    let mut state = StreamState::default();
    assert!(!state.refuses_frames());
    state.handle(Some(LifecycleEventKind::FlushStart));
    assert!(state.refuses_frames());
    state.handle(Some(LifecycleEventKind::FlushStop));
    assert!(!state.refuses_frames());
    state.handle(Some(LifecycleEventKind::Eos));
    state.handle(None);
    assert!(state.refuses_frames());
    state.handle(Some(LifecycleEventKind::FlushStop));
    assert!(!state.refuses_frames());
}

#[test]
fn negotiation_without_a_source_pad_blends() {
    let (_, step) = AttachNegotiation::start(false, true, true);
    assert_eq!(step, AttachStep::Finished(Ok(false)));
}

#[test]
fn negotiation_attaches_when_downstream_takes_the_metadata() {
    let (mut negotiation, step) = AttachNegotiation::start(true, false, true);
    assert_eq!(step, AttachStep::QueryCaps);
    assert_eq!(negotiation.caps_answered(true, true), AttachStep::QueryAllocation);
    assert_eq!(
        negotiation.allocation_answered(AllocationAnswer::Answered { has_meta: true }),
        AttachStep::CheckCaps
    );
    assert_eq!(negotiation.caps_checked(true), AttachStep::Finished(Ok(true)));
}

#[test]
fn negotiation_errors() {
    let (mut negotiation, _) = AttachNegotiation::start(true, false, true);
    assert_eq!(
        negotiation.caps_answered(false, false),
        AttachStep::Finished(Err(AttachError::MetaNotSupported))
    );
    let (mut negotiation, step) = AttachNegotiation::start(true, true, true);
    assert_eq!(step, AttachStep::QueryAllocation);
    assert_eq!(
        negotiation.allocation_answered(AllocationAnswer::Failed { flushing: true }),
        AttachStep::Finished(Err(AttachError::Flushing))
    );
    let (negotiation, step) = AttachNegotiation::start(true, false, false);
    assert_eq!(step, AttachStep::CheckCaps);
    assert_eq!(
        negotiation.caps_checked(false),
        AttachStep::Finished(Err(AttachError::UnsupportedCaps))
    );
    assert!(AttachError::Flushing.marks_reconfigure());
    assert!(AttachError::UnsupportedCaps.marks_reconfigure());
    assert!(!AttachError::MetaNotSupported.marks_reconfigure());
}
