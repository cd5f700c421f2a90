use gstoverlays::coordination::{add_claimed_regions, ClaimMeta, ClaimedRegion};
use gstoverlays::geometry::{OccupiedRegionRegistry, Rect};
use gstoverlays::keypointsoverlay::{
    analytics_to_overlay, clamp_to_frame, has_prefix, keypoint_in_frame, keypoint_label_default,
    keypoint_label_intent, overlay_has_room, place_keypoint_label, push_keypoint_label, renderer_for_tag,
    FrameBounds, Keypoint, KeypointGroup, KeypointSample, RelatedKeypoint, Settings,
    HAND_KP_21_BONES, HAND_KP_21_TAG,
};
use gstoverlays::objectdetectionoverlay;
use gstoverlays::overlay_intent::{CandidateKind, LabelIntent};
use gstoverlays::placement::place_labels;
use gstoverlays::render::{
    content_bounds, AnalyticsFrame, DrawCommand, LABEL_LAYOUT_GAP, LABEL_LAYOUT_HEIGHT,
};
use gstoverlays::scalar::Scalar;

const LABEL_WIDTH: i32 = 24;

fn scalar(v: f32) -> Scalar {
    Scalar::from_bits(v.to_bits())
}

fn keypoint(id: u32, x: i32, y: i32, confidence: &str) -> Keypoint {
    Keypoint {
        id,
        position: Some((x, y)),
        confidence: confidence.to_string(),
        label_width: LABEL_WIDTH,
        related: Vec::new(),
    }
}

fn group(tag: &str, points: &[(i32, i32)]) -> KeypointGroup {
    KeypointGroup {
        tag: Some(tag.to_string()),
        keypoints: points
            .iter()
            .enumerate()
            .map(|(i, (x, y))| keypoint(i as u32, *x, *y, "1.00"))
            .collect(),
    }
}

fn frame(width: i32, height: i32) -> FrameBounds {
    FrameBounds { width, height }
}

fn overlay(
    groups: &[KeypointGroup],
    keypoints: Vec<Keypoint>,
    settings: &Settings,
    bounds: FrameBounds,
) -> (AnalyticsFrame, Vec<DrawCommand>, Vec<LabelIntent>) {
    let claims: Option<ClaimMeta> = None;
    analytics_to_overlay(groups, &keypoints, &claims, settings, bounds)
}

fn count_centered_labels(commands: &[DrawCommand]) -> usize {
    commands
        .iter()
        .filter(|command| matches!(command, DrawCommand::TextCentered { .. }))
        .count()
}

fn count_circles(commands: &[DrawCommand]) -> usize {
    commands
        .iter()
        .filter(|command| matches!(command, DrawCommand::Circle { .. }))
        .count()
}

fn count_lines(commands: &[DrawCommand]) -> usize {
    commands
        .iter()
        .filter(|command| matches!(command, DrawCommand::Line { .. }))
        .count()
}

#[test]
fn grouped_mode_emits_single_label_per_group() {
    let groups = [group("pose/hand", &[(16, 16), (24, 24), (32, 32)])];
    let settings = Settings {
        draw_labels: true,
        semantic_tag: Some("pose/".to_string()),
        ..Default::default()
    };

    let (_, commands, _) = overlay(&groups, Vec::new(), &settings, frame(64, 64));

    assert_eq!(count_circles(&commands), 3);
    assert_eq!(count_centered_labels(&commands), 1);
}

fn two_keypoints() -> Vec<Keypoint> {
    vec![keypoint(1, 16, 16, "0.90"), keypoint(2, 24, 24, "0.80")]
}

#[test]
fn ungrouped_mode_emits_label_per_keypoint() {
    let settings = Settings {
        draw_labels: true,
        semantic_tag: None,
        ..Default::default()
    };

    let (_, commands, _) = overlay(&[], two_keypoints(), &settings, frame(64, 64));

    assert_eq!(count_circles(&commands), 2);
    assert_eq!(count_centered_labels(&commands), 2);
}

#[test]
fn commands_defer_labels_emits_intents_instead_of_drawing_text() {
    let settings = Settings {
        draw_labels: true,
        semantic_tag: None,
        defer_labels: true,
        ..Default::default()
    };
    let (_, commands, deferred) = overlay(&[], two_keypoints(), &settings, frame(64, 64));

    // Markers still drawn; the labels are deferred rather than placed.
    assert_eq!(count_circles(&commands), 2);
    assert_eq!(count_centered_labels(&commands), 0);
    assert_eq!(deferred.len(), 2);
    assert!(deferred.iter().all(|d| d.kind == CandidateKind::Point));

    // The same of the boxes of detected objects.
    let settings = objectdetectionoverlay::Settings {
        render_enabled: true,
        draw_labels: true,
        defer_labels: true,
        ..objectdetectionoverlay::Settings::default()
    };
    let person = objectdetectionoverlay::Detection {
        location: Some(objectdetectionoverlay::BBox { x: 12, y: 24, w: 48, h: 64 }),
        oriented: None,
        object_type: Some("person".to_string()),
        confidence: "0.85".to_string(),
        classification: None,
        tracking: None,
    };
    let claims: Option<ClaimMeta> = None;
    let (_, commands, deferred) = objectdetectionoverlay::analytics_to_overlay(
        &[person],
        &claims,
        settings,
        objectdetectionoverlay::FrameBounds { width: 192, height: 192 },
        |text: &String| 5 * text.len() as i32,
    );
    assert!(commands
        .iter()
        .any(|c| matches!(c, DrawCommand::Rectangle { .. })));
    assert!(!commands
        .iter()
        .any(|c| matches!(c, DrawCommand::Text { .. })));
    assert_eq!(deferred.len(), 1);
    assert_eq!(deferred[0].kind, CandidateKind::Box);
    assert_eq!(deferred[0].text, "person (c=0.85)");
}

#[test]
fn semantic_tag_filter_skips_non_matching_group() {
    let groups = [group("hand/left", &[(16, 16), (24, 24)])];
    let settings = Settings {
        draw_labels: true,
        semantic_tag: Some("pose/".to_string()),
        ..Default::default()
    };

    let (_, commands, _) = overlay(&groups, Vec::new(), &settings, frame(64, 64));

    assert!(commands.is_empty());
}

#[test]
fn grouped_mode_with_all_points_outside_frame_emits_no_labels() {
    let groups = [group("pose/hand", &[(-10, 16), (-20, 24)])];
    let settings = Settings {
        draw_labels: true,
        semantic_tag: Some("pose/".to_string()),
        ..Default::default()
    };

    let (_, commands, _) = overlay(&groups, Vec::new(), &settings, frame(64, 64));

    assert_eq!(count_circles(&commands), 0);
    assert_eq!(count_centered_labels(&commands), 0);
}

fn sample() -> KeypointSample {
    KeypointSample {
        index: 0,
        id: 1,
        x: 30,
        y: 30,
    }
}

fn default_rect(sample: KeypointSample) -> Rect {
    Rect::from_xywh(
        sample.x - LABEL_WIDTH / 2,
        sample.y - LABEL_LAYOUT_HEIGHT - LABEL_LAYOUT_GAP,
        LABEL_WIDTH,
        LABEL_LAYOUT_HEIGHT,
    )
}

#[test]
fn keypoint_label_falls_back_and_is_displaced_when_default_is_occupied() {
    let mut occupied = OccupiedRegionRegistry::new(128, 128);
    let sample = sample();

    // Occupy the default position (centered just above the keypoint).
    let default = default_rect(sample);
    occupied.reserve_highlight(default);

    let placement = place_keypoint_label(&mut occupied, sample, LABEL_WIDTH)
        .expect("expected a placement");

    assert_ne!(placement.rect, default);
    assert!(placement.displaced);
}

#[test]
fn displaced_keypoint_label_emits_a_leader_line() {
    let mut commands = Vec::new();
    let mut occupied = OccupiedRegionRegistry::new(128, 128);
    let sample = sample();

    // Block the default position so the label must be displaced.
    occupied.reserve_highlight(default_rect(sample));

    let placement = place_keypoint_label(&mut occupied, sample, LABEL_WIDTH)
        .expect("expected a placement");
    push_keypoint_label(
        &mut commands,
        placement,
        sample,
        &"0.90".to_string(),
        0xFFFF_FFFF,
    );

    assert_eq!(count_centered_labels(&commands), 1);
    assert_eq!(count_lines(&commands), 1);
}

#[test]
fn keypoint_label_at_default_position_has_no_leader_line() {
    let mut commands = Vec::new();
    let mut occupied = OccupiedRegionRegistry::new(128, 128);
    let sample = sample();

    let placement = place_keypoint_label(&mut occupied, sample, LABEL_WIDTH)
        .expect("expected a placement");
    assert!(!placement.displaced);
    push_keypoint_label(
        &mut commands,
        placement,
        sample,
        &"0.90".to_string(),
        0xFFFF_FFFF,
    );

    assert_eq!(count_centered_labels(&commands), 1);
    assert_eq!(count_lines(&commands), 0);
}

fn hand_points(count: i32) -> Vec<(i32, i32)> {
    (0..count).map(|i| (5 + i, 5 + i)).collect()
}

#[test]
fn dispatch_routes_known_tag_to_specialized_renderer() {
    assert_eq!(
        renderer_for_tag(&Some(HAND_KP_21_TAG.to_string())).name(),
        HAND_KP_21_TAG
    );
    // Unknown tags and untagged groups fall back to the generic renderer.
    assert_eq!(
        renderer_for_tag(&Some("pose/body".to_string())).name(),
        "generic-relation"
    );
    assert_eq!(renderer_for_tag(&None).name(), "generic-relation");
}

#[test]
fn hand_kp_21_renderer_draws_skeleton_from_topology_without_relations() {
    // 21 hand keypoints with NO relations between them.
    let groups = [group(HAND_KP_21_TAG, &hand_points(21))];
    let settings = Settings {
        draw_labels: false,
        draw_skeleton: true,
        semantic_tag: Some(HAND_KP_21_TAG.to_string()),
        ..Default::default()
    };
    let (_, commands, _) = overlay(&groups, Vec::new(), &settings, frame(64, 64));

    // The specialized renderer draws the skeleton from the fixed topology,
    // so all 21 bones become lines even though there are no relations.
    assert_eq!(count_lines(&commands), HAND_KP_21_BONES.len());
}

#[test]
fn generic_renderer_draws_no_skeleton_without_relations() {
    // Same keypoints, but an unspecialized tag -> generic renderer, which
    // derives the skeleton from relation metadata (there are none here).
    let groups = [group("pose/hand", &hand_points(21))];
    let settings = Settings {
        draw_labels: false,
        draw_skeleton: true,
        semantic_tag: Some("pose/".to_string()),
        ..Default::default()
    };
    let (_, commands, _) = overlay(&groups, Vec::new(), &settings, frame(64, 64));

    assert_eq!(count_lines(&commands), 0);
}

#[test]
fn labels_do_not_overlap_keypoint_markers() {
    // Two keypoints close enough that their markers overlap.
    let keypoints = vec![keypoint(1, 50, 50, "0.90"), keypoint(2, 54, 52, "0.90")];

    // Ungrouped mode (no semantic tag) draws a label per keypoint.
    let settings = Settings {
        draw_labels: true,
        ..Default::default()
    };
    let (_, commands, _) = overlay(&[], keypoints, &settings, frame(128, 128));

    let markers: Vec<Rect> = commands
        .iter()
        .filter(|c| matches!(c, DrawCommand::Circle { .. }))
        .filter_map(|c| content_bounds(c, 0))
        .collect();
    let labels: Vec<Rect> = commands
        .iter()
        .filter(|c| matches!(c, DrawCommand::TextCentered { .. }))
        .filter_map(|c| content_bounds(c, LABEL_WIDTH))
        .collect();

    assert_eq!(markers.len(), 2);
    assert_eq!(labels.len(), 2);
    for label in &labels {
        for marker in &markers {
            assert!(
                !label.intersects(*marker),
                "label {label:?} overlaps keypoint marker {marker:?}"
            );
        }
    }
}

#[test]
fn keypoint_settings_have_their_documented_defaults() {
    let settings = Settings::default();
    assert!(!settings.render_enabled);
    assert_eq!(settings.keypoint_color, 0xFFFF_0000);
    assert_eq!(settings.keypoint_radius, scalar(3.0));
    assert_eq!(settings.keypoint_reach, 3);
    assert!(settings.draw_labels);
    assert_eq!(settings.labels_color, 0xFFFF_FFFF);
    assert!(!settings.draw_skeleton);
    assert_eq!(settings.skeleton_color, 0xFF00_FF00);
    assert_eq!(settings.skeleton_line_width, scalar(2.0));
    assert_eq!(settings.semantic_tag, None);
    assert!(!settings.defer_labels);
    assert!(settings.publish_claimed_regions);
}

#[test]
fn frame_positions() {
    let bounds = frame(10, 20);
    assert!(keypoint_in_frame(bounds, 0, 19));
    assert!(!keypoint_in_frame(bounds, 10, 0));
    assert!(!keypoint_in_frame(bounds, 0, -1));
    assert_eq!(clamp_to_frame(bounds, -5, 25), (0, 19));
    assert_eq!(clamp_to_frame(bounds, 15, 7), (9, 7));
    let (x, y) = clamp_to_frame(bounds, 15, -7);
    assert_eq!(clamp_to_frame(bounds, x, y), (x, y));
}

#[test]
fn tag_prefixes() {
    assert!(has_prefix("pose/hand", "pose/"));
    assert!(has_prefix("pose", ""));
    assert!(!has_prefix("pos", "pose"));
    assert!(!has_prefix("hand", "pose"));
}

#[test]
fn related_keypoints_are_joined_once() {
    let mut first = keypoint(1, 10, 10, "0.90");
    first.related.push(RelatedKeypoint {
        id: 2,
        position: Some((40, 40)),
    });
    let mut second = keypoint(2, 40, 40, "0.90");
    second.related.push(RelatedKeypoint {
        id: 1,
        position: Some((10, 10)),
    });
    let settings = Settings {
        draw_labels: false,
        draw_skeleton: true,
        semantic_tag: Some("pose/".to_string()),
        ..Default::default()
    };
    let groups = [KeypointGroup {
        tag: Some("pose/hand".to_string()),
        keypoints: vec![first, second],
    }];
    let (analytics, commands, _) = overlay(&groups, Vec::new(), &settings, frame(64, 64));
    assert_eq!(analytics.keypoint_count, 2);
    let lines: Vec<&DrawCommand> = commands
        .iter()
        .filter(|c| matches!(c, DrawCommand::Line { .. }))
        .collect();
    assert_eq!(
        lines,
        vec![&DrawCommand::Line {
            x0: scalar(10.0),
            y0: scalar(10.0),
            x1: scalar(40.0),
            y1: scalar(40.0),
            argb: 0xFF00_FF00,
            width: scalar(2.0),
        }]
    );
}

#[test]
fn a_deferred_keypoint_label_is_placed_as_if_it_were_not_deferred() {
    let keypoint = keypoint(1, 30, 30, "0.90");
    let settings = Settings::default();
    let sample = sample();
    assert_eq!(keypoint_label_default(sample, LABEL_WIDTH), default_rect(sample));
    let intent = keypoint_label_intent(sample, &keypoint, &settings);
    assert_eq!(intent.preferred, default_rect(sample));
    assert_eq!(intent.owner, "keypointsoverlay");

    let mut registry = OccupiedRegionRegistry::new(128, 128);
    let placement = place_keypoint_label(&mut registry, sample, LABEL_WIDTH).unwrap();
    let mut commands = Vec::new();
    push_keypoint_label(&mut commands, placement, sample, &"0.90".to_string(), 0xFFFF_FFFF);
    assert_eq!(place_labels(128, 128, &[], &[intent]), commands);
}

#[test]
fn keypoint_labels_avoid_hard_claims() {
    let mut claims = None;
    add_claimed_regions(
        &mut claims,
        &[ClaimedRegion::occlude(default_rect(sample()), "odoverlay", 0)],
    );
    let settings = Settings::default();
    let (_, commands, _) = analytics_to_overlay(
        &[],
        &vec![keypoint(1, 30, 30, "0.90")],
        &claims,
        &settings,
        frame(128, 128),
    );
    assert_eq!(count_lines(&commands), 1);
    assert_eq!(count_centered_labels(&commands), 1);
}

#[test]
fn labels_avoid_markers_that_overlap_one_another() {
    // The marker of the second keypoint meets the first one, and lies where the label of the
    // first would go.
    let keypoints = vec![keypoint(1, 50, 50, "0.90"), keypoint(2, 54, 45, "0.90")];
    let (_, commands, _) = overlay(&[], keypoints, &Settings::default(), frame(128, 128));
    let markers: Vec<Rect> = commands
        .iter()
        .filter(|c| matches!(c, DrawCommand::Circle { .. }))
        .filter_map(|c| content_bounds(c, 0))
        .collect();
    let labels: Vec<Rect> = commands
        .iter()
        .filter(|c| matches!(c, DrawCommand::TextCentered { .. }))
        .filter_map(|c| content_bounds(c, LABEL_WIDTH))
        .collect();
    assert_eq!((markers.len(), labels.len()), (2, 2));
    assert!(markers[0].intersects(markers[1]));
    for label in &labels {
        assert!(markers.iter().all(|marker| !label.intersects(*marker)));
    }
    assert!(!labels[0].intersects(labels[1]));
}

#[test]
fn an_empty_frame_has_room_for_nothing_to_draw() {
    let settings = Settings {
        draw_skeleton: true,
        semantic_tag: Some("pose/".to_string()),
        ..Default::default()
    };
    let room = |groups: &[KeypointGroup], bounds: FrameBounds| {
        overlay_has_room(groups, &Vec::new(), &None, &settings, bounds)
    };
    assert!(room(&[], frame(0, 0)));
    assert!(room(&[group("pose/hand", &[(1, 1), (2, 2)])], frame(0, 0)));
    assert!(room(&[group("other", &[(1, 1)])], frame(0, 0)));
    let (_, commands, _) = overlay(&[], Vec::new(), &settings, frame(0, 0));
    assert!(commands.is_empty());

    // A skeleton's lines need a frame to lie in.
    let mut linked = group("pose/hand", &[(1, 1)]);
    linked.keypoints[0].related.push(RelatedKeypoint { id: 7, position: Some((2, 2)) });
    assert!(!room(&[linked], frame(0, 0)));
}
