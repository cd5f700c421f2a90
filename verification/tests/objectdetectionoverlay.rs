use gstoverlays::coordination::{add_claimed_regions, ClaimMeta, ClaimedRegion};
use gstoverlays::geometry::{OccupiedRegionRegistry, Rect};
use gstoverlays::objectdetectionoverlay::{
    analytics_to_overlay, estimate_label_rect, place_od_label, push_od_label, track_color_key,
    tracking_label_text, BBox, ClassLevel, Detection, FrameBounds, PendingLabel, Settings,
    Tracking,
};
use gstoverlays::overlay_intent::{CandidateKind, LabelIntent};
use gstoverlays::placement::place_labels;
use gstoverlays::render::{content_bounds, AnalyticsFrame, DrawCommand};
use gstoverlays::scalar::Scalar;

const TRACK_COLOR_SATURATION: f32 = 0.85;
const TRACK_COLOR_VALUE: f32 = 0.95;

fn scalar(v: f32) -> Scalar {
    Scalar::from_bits(v.to_bits())
}

fn text_width(text: &str) -> i32 {
    5 * text.len() as i32
}

/// The colour of a track: its bit-reversed number is the hue.
fn track_color(id: u64) -> u32 {
    let mut hue = 0.0_f32;
    let mut increment = 0.5_f32;
    let mut rest = id;
    while rest > 0 {
        if rest & 1 == 1 {
            hue += increment;
        }
        rest >>= 1;
        increment *= 0.5;
    }
    let (s, v) = (TRACK_COLOR_SATURATION, TRACK_COLOR_VALUE);
    let sector = (hue * 6.0) as i32;
    let f = hue * 6.0 - sector as f32;
    let (p, q, t) = (v * (1.0 - s), v * (1.0 - f * s), v * (1.0 - (1.0 - f) * s));
    let (r, g, b) = match sector.rem_euclid(6) {
        0 => (v, t, p),
        1 => (q, v, p),
        2 => (p, v, t),
        3 => (p, q, v),
        4 => (t, p, v),
        _ => (v, p, q),
    };
    gstoverlays::color::RgbColor::new(
        (r * 255.0) as u8,
        (g * 255.0) as u8,
        (b * 255.0) as u8,
    )
    .to_argb()
}

fn detection(name: &str, x: i32, y: i32, w: i32, h: i32, confidence: &str) -> Detection {
    Detection {
        location: Some(BBox { x, y, w, h }),
        oriented: None,
        object_type: Some(name.to_string()),
        confidence: confidence.to_string(),
        classification: None,
        tracking: None,
    }
}

fn person() -> Detection {
    detection("person", 12, 24, 48, 64, "0.85")
}

fn tracked_person() -> Detection {
    let mut person = person();
    person.tracking = Some(Tracking {
        id: 17,
        color: track_color(track_color_key(17)),
    });
    person
}

fn test_frame_bounds() -> FrameBounds {
    FrameBounds {
        width: 192,
        height: 192,
    }
}

fn overlay(
    detections: &[Detection],
    claims: &Option<ClaimMeta>,
    settings: Settings,
) -> (AnalyticsFrame, Vec<DrawCommand>, Vec<LabelIntent>) {
    analytics_to_overlay(
        detections,
        claims,
        settings,
        test_frame_bounds(),
        |text: &String| text_width(text),
    )
}

fn drawn(detections: &[Detection], settings: Settings) -> (AnalyticsFrame, Vec<DrawCommand>) {
    let (frame, commands, _deferred) = overlay(detections, &None, settings);
    (frame, commands)
}

#[test]
fn analytics_metadata_becomes_rectangle_and_label_commands() {
    let settings = Settings {
        render_enabled: true,
        object_detection_outline_color: 0xFF00_FF00,
        draw_labels: true,
        draw_tracking_labels: true,
        labels_color: 0xFFFF_FFFF,
        filled_box: false,
        ..Settings::default()
    };

    let (analytics, commands) = drawn(&[person()], settings);

    assert_eq!(analytics.object_count, 1);
    assert_eq!(commands.len(), 2);
    assert_eq!(
        commands[0],
        DrawCommand::Rectangle {
            x: scalar(12.0),
            y: scalar(24.0),
            width: scalar(48.0),
            height: scalar(64.0),
            rotation: scalar(0.0),
            argb: 0xFF00_FF00,
            filled: false,
        }
    );

    match &commands[1] {
        DrawCommand::Text { x, y, text, argb } => {
            assert_eq!((*x, *y, *argb), (scalar(12.0), scalar(24.0), 0xFFFF_FFFF));
            assert_eq!(text, "person (c=0.85)");
        }
        other => panic!("unexpected command: {other:?}"),
    }
}

#[test]
fn related_classification_and_tracking_metadata_override_text_content() {
    let mut detection = tracked_person();
    detection.classification = Some(vec![ClassLevel {
        label: "bus".to_string(),
        level: "0.42".to_string(),
    }]);

    let settings = Settings {
        render_enabled: true,
        object_detection_outline_color: 0xFF00_FF00,
        draw_labels: true,
        draw_tracking_labels: true,
        labels_color: 0xFFFF_FFFF,
        filled_box: false,
        ..Settings::default()
    };

    let (analytics, commands) = drawn(&[detection], settings);

    assert_eq!(analytics.object_count, 1);
    assert_eq!(commands.len(), 3);

    match &commands[1] {
        DrawCommand::Text { text, .. } => assert_eq!(text, "bus (c=0.42)"),
        other => panic!("unexpected command: {other:?}"),
    }

    match &commands[2] {
        DrawCommand::Text { text, .. } => assert_eq!(text, "Track: 17"),
        other => panic!("unexpected command: {other:?}"),
    }
}

#[test]
fn tracking_outline_colors_uses_track_based_color() {
    let settings = Settings {
        render_enabled: true,
        object_detection_outline_color: 0xFF00_FF00,
        draw_labels: false,
        draw_tracking_labels: false,
        tracking_outline_colors: true,
        ..Settings::default()
    };

    let (_, commands) = drawn(&[tracked_person()], settings);

    match &commands[0] {
        DrawCommand::Rectangle { argb, .. } => {
            assert_eq!(*argb, track_color(17));
            assert_ne!(*argb, 0xFF00_FF00);
        }
        other => panic!("unexpected command: {other:?}"),
    }
}

#[test]
fn oriented_metadata_becomes_rotated_rectangle_command() {
    let mut hand = detection("hand", 20, 30, 40, 50, "0.90");
    hand.oriented = Some((BBox { x: 20, y: 30, w: 40, h: 50 }, scalar(0.37)));

    let settings = Settings {
        render_enabled: true,
        object_detection_outline_color: 0xFF00_FF00,
        draw_labels: false,
        draw_tracking_labels: false,
        ..Settings::default()
    };

    let (_, commands) = drawn(&[hand], settings);

    match &commands[0] {
        DrawCommand::Rectangle { rotation, .. } => {
            assert!((f32::from_bits(rotation.bits) - 0.37).abs() < f32::EPSILON);
        }
        other => panic!("unexpected command: {other:?}"),
    }
}

#[test]
fn analytics_metadata_without_relation_meta_produces_no_commands() {
    let (analytics, commands) = drawn(&[], Settings::default());

    assert_eq!(analytics.object_count, 0);
    assert!(commands.is_empty());
}

#[test]
fn defer_labels_emits_intents_instead_of_drawing_text() {
    let settings = Settings {
        render_enabled: true,
        draw_labels: true,
        defer_labels: true,
        ..Settings::default()
    };
    let (_, commands, deferred) = overlay(&[person()], &None, settings);

    // The box is still drawn, but the label is deferred rather than placed.
    assert!(commands
        .iter()
        .any(|c| matches!(c, DrawCommand::Rectangle { .. })));
    assert!(!commands
        .iter()
        .any(|c| matches!(c, DrawCommand::Text { .. })));
    assert_eq!(deferred.len(), 1);
    assert_eq!(deferred[0].kind, CandidateKind::Box);
    assert_eq!(deferred[0].text, "person (c=0.85)");
}

#[test]
fn tracking_outline_colors_disabled_uses_static_outline_color() {
    let settings = Settings {
        render_enabled: true,
        object_detection_outline_color: 0xFF12_3456,
        draw_labels: false,
        draw_tracking_labels: false,
        labels_color: 0xFFFF_FFFF,
        filled_box: false,
        tracking_outline_colors: false,
        ..Settings::default()
    };

    let (_, commands) = drawn(&[tracked_person()], settings);

    match &commands[0] {
        DrawCommand::Rectangle { argb, .. } => assert_eq!(*argb, 0xFF12_3456),
        other => panic!("unexpected command: {other:?}"),
    }
}

#[test]
fn draw_labels_disabled_suppresses_class_label_text() {
    let settings = Settings {
        draw_labels: false,
        draw_tracking_labels: false,
        ..Settings::default()
    };

    let (_, commands) = drawn(&[person()], settings);

    assert_eq!(commands.len(), 1);
    assert!(matches!(commands[0], DrawCommand::Rectangle { .. }));
}

#[test]
fn draw_tracking_labels_disabled_suppresses_tracking_text() {
    let settings = Settings {
        draw_labels: true,
        draw_tracking_labels: false,
        labels_color: 0xFFAB_CDEF,
        ..Settings::default()
    };

    let (_, commands) = drawn(&[tracked_person()], settings);

    assert_eq!(commands.len(), 2);
    match &commands[1] {
        DrawCommand::Text { text, argb, .. } => {
            assert_eq!(text, "person (c=0.85)");
            assert_eq!(*argb, 0xFFAB_CDEF);
        }
        other => panic!("unexpected command: {other:?}"),
    }
}

#[test]
fn filled_box_setting_propagates_to_rectangle_command() {
    let settings = Settings {
        draw_labels: false,
        draw_tracking_labels: false,
        filled_box: true,
        ..Settings::default()
    };

    let (_, commands) = drawn(&[person()], settings);

    match &commands[0] {
        DrawCommand::Rectangle { filled, .. } => assert!(*filled),
        other => panic!("unexpected command: {other:?}"),
    }
}

fn count_lines(commands: &[DrawCommand]) -> usize {
    commands
        .iter()
        .filter(|command| matches!(command, DrawCommand::Line { .. }))
        .count()
}

fn pending(bbox: BBox, text: &str) -> PendingLabel {
    PendingLabel {
        box_rect: bbox.rect(),
        text: text.to_string(),
        preferred_x: bbox.x,
        preferred_y: bbox.y,
    }
}

#[test]
fn od_label_falls_back_and_is_displaced_when_preferred_spot_is_occupied() {
    let mut occupied = OccupiedRegionRegistry::new(128, 128);
    let bbox = BBox {
        x: 20,
        y: 20,
        w: 30,
        h: 20,
    };
    let width = text_width("person (c=0.90)");

    // The preferred label rect sits just above the box top (baseline at y=20).
    let default = estimate_label_rect(20, 20, width);
    occupied.reserve_highlight(default);

    let placement = place_od_label(&mut occupied, bbox.rect(), width, 20, 20)
        .expect("expected a fallback placement");

    assert_ne!(placement.rect, default);
    assert!(placement.displaced);
}

#[test]
fn displaced_od_label_emits_a_leader_line() {
    let mut commands = Vec::new();
    let mut occupied = OccupiedRegionRegistry::new(128, 128);
    let bbox = BBox {
        x: 20,
        y: 20,
        w: 30,
        h: 20,
    };
    let width = text_width("person (c=0.90)");

    occupied.reserve_highlight(estimate_label_rect(20, 20, width));

    let placement = place_od_label(&mut occupied, bbox.rect(), width, 20, 20)
        .expect("expected a placement");
    push_od_label(
        &mut commands,
        placement,
        &pending(bbox, "person (c=0.90)"),
        0xFFFF_FFFF,
    );

    assert_eq!(count_lines(&commands), 1);
    assert!(matches!(commands.last(), Some(DrawCommand::Text { .. })));
}

#[test]
fn od_label_at_preferred_spot_has_no_leader_line() {
    let mut commands = Vec::new();
    let mut occupied = OccupiedRegionRegistry::new(128, 128);
    let bbox = BBox {
        x: 20,
        y: 20,
        w: 30,
        h: 20,
    };
    let width = text_width("person (c=0.90)");

    let placement = place_od_label(&mut occupied, bbox.rect(), width, 20, 20)
        .expect("expected a placement");
    assert!(!placement.displaced);
    push_od_label(
        &mut commands,
        placement,
        &pending(bbox, "person (c=0.90)"),
        0xFFFF_FFFF,
    );

    assert_eq!(count_lines(&commands), 0);
    assert_eq!(commands.len(), 1);
}

#[test]
fn overlapping_objects_are_labelled_deterministically_with_leader_lines() {
    // Four boxes stacked at nearly the same spot so their default label
    // positions collide and the candidate / least-overlap path engages.
    let build = || -> Vec<Detection> {
        (0..4)
            .map(|i| {
                let off = i * 4;
                detection("person", 20 + off, 40 + off, 40, 30, "0.80")
            })
            .collect()
    };

    let settings = Settings {
        render_enabled: true,
        draw_labels: true,
        draw_tracking_labels: false,
        ..Settings::default()
    };

    let (analytics, commands) = drawn(&build(), settings);
    let (_, commands_again) = drawn(&build(), settings);

    // Deterministic: identical input produces identical draw commands.
    assert_eq!(commands, commands_again);

    // Complete: every object is labelled (none dropped by the placement).
    let labels = commands
        .iter()
        .filter(|c| matches!(c, DrawCommand::Text { .. }))
        .count();
    assert_eq!(analytics.object_count, 4);
    assert_eq!(labels, 4);

    // The crowding forces at least one label off its default position, which
    // must emit a leader line back to its box.
    assert!(count_lines(&commands) >= 1);
}

#[test]
fn label_avoids_a_region_claimed_by_another_element() {
    let settings = Settings {
        render_enabled: true,
        draw_labels: true,
        draw_tracking_labels: false,
        ..Settings::default()
    };

    // A single object whose label sits, by default, just above its box.
    let label = "person (c=0.85)";
    let build = || vec![detection("person", 20, 40, 40, 30, "0.85")];

    // Baseline: no claims, so the label takes its default spot (no leader).
    let (_, baseline) = drawn(&build(), settings);
    assert_eq!(count_lines(&baseline), 0);

    // Another element claims exactly the default label position.
    let mut claims = None;
    add_claimed_regions(
        &mut claims,
        &[ClaimedRegion::occlude(
            estimate_label_rect(20, 40, text_width(label)),
            "hair-spikes",
            0,
        )],
    );

    let (_, commands, _) = overlay(&build(), &claims, settings);

    // The label is still drawn, but displaced off the claimed area, so a
    // leader line now connects it back to the box.
    let labels = commands
        .iter()
        .filter(|c| matches!(c, DrawCommand::Text { .. }))
        .count();
    assert_eq!(labels, 1);
    assert!(count_lines(&commands) >= 1);
}

fn label_rects(commands: &[DrawCommand]) -> Vec<Rect> {
    commands
        .iter()
        .filter_map(|c| match c {
            DrawCommand::Text { text, .. } => content_bounds(c, text_width(text)),
            _ => None,
        })
        .collect()
}

fn box_rects(commands: &[DrawCommand]) -> Vec<Rect> {
    commands
        .iter()
        .filter_map(|c| match c {
            DrawCommand::Rectangle {
                x,
                y,
                width,
                height,
                ..
            } => Some(Rect::from_xywh(
                x.trunc_to_i32(),
                y.trunc_to_i32(),
                width.trunc_to_i32(),
                height.trunc_to_i32(),
            )),
            _ => None,
        })
        .collect()
}

#[test]
fn labels_do_not_overlap_any_box_even_when_boxes_overlap() {
    // Two overlapping boxes. The label of the first must avoid the second.
    let detections = vec![
        detection("a", 40, 40, 40, 30, "0.90"),
        detection("b", 60, 55, 40, 30, "0.90"),
    ];

    let settings = Settings {
        render_enabled: true,
        draw_labels: true,
        draw_tracking_labels: false,
        ..Settings::default()
    };
    let (analytics, commands) = drawn(&detections, settings);
    assert_eq!(analytics.object_count, 2);

    let boxes = box_rects(&commands);
    let labels = label_rects(&commands);

    assert_eq!(boxes.len(), 2);
    assert_eq!(labels.len(), 2);
    for label in &labels {
        for b in &boxes {
            assert!(!label.intersects(*b), "label {label:?} overlaps box {b:?}");
        }
    }
}

#[test]
fn settings_have_their_documented_defaults() {
    let settings = Settings::default();
    assert!(!settings.render_enabled);
    assert_eq!(settings.object_detection_outline_color, 0xFFFF_FFFF);
    assert!(settings.draw_labels);
    assert!(settings.draw_tracking_labels);
    assert_eq!(settings.labels_color, 0xFFFF_FFFF);
    assert!(!settings.filled_box);
    assert_eq!(settings.expire_overlay, 1_000_000_000);
    assert!(settings.tracking_outline_colors);
    assert!(!settings.suppress_builtin_rendering);
    assert_eq!(settings.priority, 0);
    assert!(!settings.defer_labels);
}

#[test]
fn detections_without_a_box_are_not_counted() {
    let mut unread = person();
    unread.location = None;
    let empty = detection("person", 10, 10, 0, 5, "0.50");
    let flat = detection("person", 10, 10, 5, -1, "0.50");
    let (analytics, commands) = drawn(&[unread, empty, flat], Settings::default());
    assert_eq!(analytics.object_count, 0);
    assert!(commands.is_empty());
}

#[test]
fn label_texts() {
    let mut detection = person();
    assert_eq!(detection.label_text(), "person (c=0.85)");
    detection.object_type = None;
    assert_eq!(detection.label_text(), "unknown (c=0.85)");
    detection.classification = Some(Vec::new());
    assert_eq!(detection.label_text(), "unknown (c=0.85)");
    assert_eq!(tracking_label_text(0), "Track: 0");
    assert_eq!(tracking_label_text(u64::MAX), "Track: 18446744073709551615");
    assert_eq!(track_color_key(0x1000_0001), 1);
}

#[test]
fn labels_of_separate_objects_stay_clear_of_boxes_and_of_each_other() {
    let detections = vec![
        detection("a", 20, 40, 40, 30, "0.90"),
        detection("b", 20, 90, 40, 30, "0.90"),
        detection("c", 90, 40, 40, 30, "0.90"),
    ];
    let (_, commands) = drawn(&detections, Settings::default());
    let boxes = box_rects(&commands);
    let labels = label_rects(&commands);
    assert_eq!(labels.len(), 3);
    for (i, label) in labels.iter().enumerate() {
        for b in &boxes {
            assert!(!label.intersects(*b));
        }
        for other in &labels[i + 1..] {
            assert!(!label.intersects(*other));
        }
    }
}

#[test]
fn a_single_deferred_label_is_placed_as_if_it_were_not_deferred() {
    let settings = Settings {
        draw_tracking_labels: false,
        ..Settings::default()
    };
    let (_, commands) = drawn(&[person()], settings);
    let (_, boxes, deferred) =
        overlay(&[person()], &None, Settings { defer_labels: true, ..settings });
    assert_eq!(boxes.len(), 1);
    let composed = place_labels(192, 192, &[], &deferred);
    assert_eq!(composed, commands[1..].to_vec());
}

#[test]
fn a_tracking_label_sits_below_its_box() {
    let settings = Settings {
        draw_labels: false,
        ..Settings::default()
    };
    let (_, commands) = drawn(&[tracked_person()], settings);
    match &commands[1] {
        DrawCommand::Text { x, y, .. } => {
            assert_eq!((*x, *y), (scalar(12.0), scalar(24.0 + 64.0 + 12.0 + 2.0)));
        }
        other => panic!("unexpected command: {other:?}"),
    }
}

#[test]
fn a_label_avoids_a_later_box_that_overlaps_its_own() {
    let detections = [
        detection("a", 50, 50, 100, 100, "0.90"),
        detection("b", 100, 20, 40, 100, "0.90"),
    ];
    let settings = Settings { draw_tracking_labels: false, ..Settings::default() };
    let (_, commands, _) = analytics_to_overlay(
        &detections,
        &None,
        settings,
        FrameBounds { width: 200, height: 200 },
        |_: &String| 90,
    );
    let boxes = box_rects(&commands);
    assert_eq!(boxes.len(), 2);
    // The place above the first box lies on the second box, the one below is free.
    match &commands[3] {
        DrawCommand::Text { x, y, .. } => assert_eq!((*x, *y), (scalar(50.0), scalar(164.0))),
        other => panic!("unexpected command {other:?}"),
    }
    for command in &commands {
        if let DrawCommand::Text { .. } = command {
            let label = content_bounds(command, 90).unwrap();
            assert!(boxes.iter().all(|bbox| !label.intersects(*bbox)));
        }
    }
}
