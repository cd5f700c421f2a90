use gstoverlays::coordination::ClaimedRegion;
use gstoverlays::geometry::{OccupiedRegionRegistry, Rect};
use gstoverlays::overlay_intent::{CandidateKind, LabelIntent};
use gstoverlays::placement::{
    box_label_candidates, candidates_for, is_placeable, label_text_command, leader_endpoints,
    place_label, place_labels, point_label_candidates, point_label_fits, push_leader_line,
};
use gstoverlays::render::DrawCommand;
use gstoverlays::scalar::Scalar;

fn rect(x: i32, y: i32, w: i32, h: i32) -> Rect {
    Rect::from_xywh(x, y, w, h)
}

#[test]
fn default_position_is_used_when_free() {
    let mut registry = OccupiedRegionRegistry::new(200, 200);

    let default = rect(10, 10, 40, 20);
    let placement = place_label(&mut registry, default, &[rect(60, 10, 40, 20)])
        .expect("expected a placement");

    assert_eq!(placement.rect, default);
    assert!(!placement.displaced);
    // Only the default region was reserved.
    assert_eq!(registry.len(), 1);
}

#[test]
fn label_moves_off_a_soft_avoid_region_to_a_clear_spot() {
    let mut registry = OccupiedRegionRegistry::new(200, 200);
    // A segmentation mask covers the default position.
    registry.reserve_avoid(rect(0, 0, 60, 60));

    let default = rect(10, 10, 40, 20); // sits on the mask
    let candidates = [rect(100, 100, 40, 20)]; // clear of the mask
    let placement =
        place_label(&mut registry, default, &candidates).expect("expected a placement");

    // The default is not blocked (avoid is soft), but a clear spot is
    // preferred, so the label moves and reports as displaced.
    assert_eq!(placement.rect, candidates[0]);
    assert!(placement.displaced);
}

#[test]
fn label_keeps_clear_default_despite_an_avoid_region_elsewhere() {
    let mut registry = OccupiedRegionRegistry::new(200, 200);
    registry.reserve_avoid(rect(100, 100, 60, 60)); // mask away from the default

    let default = rect(10, 10, 40, 20); // clear
    let placement = place_label(&mut registry, default, &[rect(60, 10, 40, 20)])
        .expect("expected a placement");

    assert_eq!(placement.rect, default);
    assert!(!placement.displaced);
}

#[test]
fn label_sits_on_least_covered_mask_when_no_clear_spot_exists() {
    let mut registry = OccupiedRegionRegistry::new(200, 200);
    // The left half of the frame is masked; every position overlaps it by a
    // different amount, and there are no hard regions.
    registry.reserve_avoid(rect(0, 0, 100, 200));

    let default = rect(0, 0, 40, 20); // fully masked: 40x20 = 800 px
    let candidates = [
        rect(80, 0, 40, 20), // masked 20x20 = 400 px (least)
        rect(60, 0, 40, 20), // masked 40x20 = 800 px
    ];
    let placement =
        place_label(&mut registry, default, &candidates).expect("expected a placement");

    // No hard-free, mask-free spot exists, so the label sits on the
    // least-covered mask position rather than being force-displaced.
    assert_eq!(placement.rect, candidates[0]);
    assert!(placement.displaced);
}

#[test]
fn first_free_fallback_is_used_when_default_is_occupied() {
    let mut registry = OccupiedRegionRegistry::new(200, 200);

    let default = rect(10, 10, 40, 20);
    registry.reserve_highlight(default);

    let candidates = [
        rect(10, 10, 40, 20), // collides with the highlight
        rect(60, 10, 40, 20), // free
        rect(110, 10, 40, 20),
    ];
    let placement =
        place_label(&mut registry, default, &candidates).expect("expected a placement");

    assert_eq!(placement.rect, candidates[1]);
    assert!(placement.displaced);
}

#[test]
fn falls_back_to_least_overlap_when_all_candidates_collide() {
    let mut registry = OccupiedRegionRegistry::new(200, 200);
    // A tall band and a thin band so candidates overlap by different areas.
    registry.reserve_highlight(rect(0, 0, 200, 30));
    registry.reserve_highlight(rect(0, 40, 200, 5));

    let default = rect(0, 0, 40, 20); // fully inside the tall band
    let candidates = [
        rect(10, 20, 40, 20), // overlaps the tall band: 40x10 = 400 px
        rect(10, 40, 40, 20), // overlaps the thin band: 40x5  = 200 px
    ];
    let placement =
        place_label(&mut registry, default, &candidates).expect("expected a forced placement");

    assert_eq!(placement.rect, candidates[1]);
    assert!(placement.displaced);
    // The forced candidate was reserved (2 highlights + 1 label).
    assert_eq!(registry.len(), 3);
}

#[test]
fn least_overlap_ties_keep_the_earliest_candidate() {
    let mut registry = OccupiedRegionRegistry::new(200, 200);
    registry.reserve_highlight(rect(0, 0, 200, 200));

    let default = rect(0, 0, 40, 20);
    let candidates = [rect(10, 10, 40, 20), rect(100, 100, 40, 20)];
    let placement =
        place_label(&mut registry, default, &candidates).expect("expected a forced placement");

    assert_eq!(placement.rect, candidates[0]);
    assert!(placement.displaced);
}

#[test]
fn off_frame_candidates_are_skipped() {
    let mut registry = OccupiedRegionRegistry::new(100, 100);
    registry.reserve_highlight(rect(0, 0, 100, 100));

    let default = rect(0, 0, 40, 20);
    let candidates = [
        rect(200, 200, 40, 20), // entirely off-frame, must be ignored
        rect(10, 10, 40, 20),
    ];
    let placement =
        place_label(&mut registry, default, &candidates).expect("expected a forced placement");

    assert_eq!(placement.rect, candidates[1]);
    assert!(placement.displaced);
}

#[test]
fn returns_none_when_nothing_intersects_the_frame() {
    let mut registry = OccupiedRegionRegistry::new(100, 100);
    registry.reserve_highlight(rect(0, 0, 100, 100));

    assert_eq!(
        place_label(
            &mut registry,
            rect(-100, -100, 40, 20),
            &[rect(200, 200, 40, 20)],
        ),
        None
    );
}

#[test]
fn leader_endpoints_connect_facing_edges_diagonally() {
    // Box at (100,100)-(200,160); label sits above-left of it.
    let box_rect = Rect::from_xywh(100, 100, 100, 60);
    let label = Rect::from_xywh(20, 40, 40, 12); // (20,40)-(60,52)

    let (from, to) = leader_endpoints(box_rect, label);

    // The box endpoint is on the box, the label endpoint is on the label,
    // and the two differ in both axes (a diagonal segment).
    assert_eq!(from, box_rect.closest_point_to(label.center()));
    assert_eq!(to, label.closest_point_to(box_rect.center()));
    assert_eq!(from, (100, 100)); // box top-left corner faces the label
    assert_eq!(to, (60, 52)); // label bottom-right corner faces the box
    assert_ne!(from.0, to.0);
    assert_ne!(from.1, to.1);
}

#[test]
fn leader_endpoints_handle_a_point_feature() {
    let keypoint = Rect::from_xywh(30, 30, 0, 0); // zero-sized = a point
    let label = Rect::from_xywh(50, 50, 20, 10);

    let (from, to) = leader_endpoints(keypoint, label);

    assert_eq!(from, (30, 30)); // the point itself
    assert_eq!(to, (50, 50)); // nearest label corner to the point
}

#[test]
fn placement_is_deterministic_for_identical_input() {
    // The same scene built twice must yield byte-identical placement
    // decisions (no dependence on hashing / iteration order).
    let scene = || {
        let mut registry = OccupiedRegionRegistry::new(200, 200);
        registry.reserve_highlight(rect(0, 0, 200, 40));
        let default = rect(0, 0, 40, 20);
        let candidates = [
            rect(10, 20, 40, 20),
            rect(10, 45, 40, 20),
            rect(60, 45, 40, 20),
        ];
        place_label(&mut registry, default, &candidates)
    };

    assert_eq!(scene(), scene());
}

#[test]
fn point_candidates_are_ordered_near_ring_then_far_ring() {
    let candidates = point_label_candidates(100, 100, 20, 10);

    // Eight per ring, two rings.
    assert_eq!(candidates.len(), 16);
    // First candidate is "above" in the near ring (gap = 4).
    assert_eq!(candidates[0], Rect::from_xywh(90, 100 - 10 - 4, 20, 10));
    // Ninth candidate is "above" in the far ring (ext = 12).
    assert_eq!(candidates[8], Rect::from_xywh(90, 100 - 10 - 12, 20, 10));
}

fn scalar(v: f32) -> Scalar {
    Scalar::from_bits(v.to_bits())
}

fn box_label(text: &str, anchor: Rect, preferred: Rect, priority: i32) -> LabelIntent {
    LabelIntent {
        text: text.to_string(),
        color: 0xFFFF_FFFF,
        anchor,
        preferred,
        kind: CandidateKind::Box,
        priority,
        owner: "test".to_string(),
    }
}

fn point_label(text: &str, x: i32, y: i32, preferred: Rect, priority: i32) -> LabelIntent {
    LabelIntent {
        text: text.to_string(),
        color: 0xFF00_FF00,
        anchor: Rect::from_xywh(x, y, 0, 0),
        preferred,
        kind: CandidateKind::Point,
        priority,
        owner: "test".to_string(),
    }
}

fn label_rect(command: &DrawCommand) -> Option<(Scalar, Scalar)> {
    match command {
        DrawCommand::Text { x, y, .. } => Some((*x, *y)),
        DrawCommand::TextCentered { x, y, .. } => Some((*x, *y)),
        _ => None,
    }
}

fn count_leaders(commands: &[DrawCommand]) -> usize {
    commands
        .iter()
        .filter(|c| matches!(c, DrawCommand::Line { .. }))
        .count()
}

#[test]
fn places_at_preferred_when_clear() {
    let preferred = Rect::from_xywh(10, 0, 40, 12);
    let anchor = Rect::from_xywh(10, 12, 40, 30);
    let intents = vec![box_label("person", anchor, preferred, 5)];

    let commands = place_labels(200, 200, &[], &intents);

    // No claims, no other labels: placed at preferred (bottom-left), no leader.
    assert_eq!(count_leaders(&commands), 0);
    assert_eq!(label_rect(&commands[0]), Some((scalar(10.0), scalar(12.0))));
}

#[test]
fn relocates_around_higher_priority_claim() {
    let preferred = Rect::from_xywh(10, 0, 40, 12);
    let anchor = Rect::from_xywh(10, 12, 40, 30);
    let intents = vec![box_label("person", anchor, preferred, 5)];
    // A higher-priority claim covering the preferred position.
    let claims = vec![ClaimedRegion::occlude(preferred, "keypointsoverlay", 9)];

    let commands = place_labels(200, 200, &claims, &intents);

    // The label is moved off the claimed spot and a leader line is drawn.
    assert_eq!(count_leaders(&commands), 1);
    assert_ne!(
        label_rect(commands.last().unwrap()),
        Some((scalar(10.0), scalar(12.0)))
    );
}

#[test]
fn overdraws_lower_priority_claim() {
    let preferred = Rect::from_xywh(10, 0, 40, 12);
    let anchor = Rect::from_xywh(10, 12, 40, 30);
    let intents = vec![box_label("person", anchor, preferred, 5)];
    // A lower-priority claim is ignored (not avoided), so the label stays put.
    let claims = vec![ClaimedRegion::occlude(preferred, "labeloverlay", 1)];

    let commands = place_labels(200, 200, &claims, &intents);

    assert_eq!(count_leaders(&commands), 0);
    assert_eq!(label_rect(&commands[0]), Some((scalar(10.0), scalar(12.0))));
}

#[test]
fn two_labels_do_not_overlap() {
    // Two equal-priority labels whose preferred rects coincide.
    let preferred = Rect::from_xywh(10, 0, 40, 12);
    let anchor = Rect::from_xywh(10, 12, 40, 30);
    let intents = vec![
        box_label("a", anchor, preferred, 5),
        box_label("b", anchor, preferred, 5),
    ];

    let commands = place_labels(200, 200, &[], &intents);

    // First takes the preferred spot; the second is relocated (one leader).
    assert_eq!(count_leaders(&commands), 1);
}

#[test]
fn important_labels_are_placed_first() {
    let preferred = Rect::from_xywh(10, 0, 40, 12);
    let anchor = Rect::from_xywh(10, 12, 40, 30);
    let intents = vec![
        box_label("minor", anchor, preferred, 1),
        box_label("major", anchor, preferred, 7),
    ];

    let commands = place_labels(200, 200, &[], &intents);

    // The major label comes first, at its preferred position; the minor one moves.
    match &commands[0] {
        DrawCommand::Text { text, x, y, .. } => {
            assert_eq!(text, "major");
            assert_eq!((*x, *y), (scalar(10.0), scalar(12.0)));
        }
        other => panic!("unexpected command {:?}", other),
    }
    assert_eq!(commands.len(), 3);
}

#[test]
fn labels_outside_the_frame_are_not_drawn() {
    let far = Rect::from_xywh(5_000, 5_000, 40, 12);
    let intents = vec![box_label("far", far, far, 0)];
    assert!(place_labels(200, 200, &[], &intents).is_empty());
}

#[test]
fn point_labels_are_drawn_centered() {
    let preferred = Rect::from_xywh(90, 84, 20, 12);
    let intents = vec![point_label("0.90", 100, 100, preferred, 0)];
    let commands = place_labels(200, 200, &[], &intents);
    assert_eq!(
        commands,
        vec![DrawCommand::TextCentered {
            x: scalar(100.0),
            y: scalar(90.0),
            text: "0.90".to_string(),
            argb: 0xFF00_FF00,
        }]
    );
    assert_eq!(
        label_text_command(&intents[0], Rect::from_xywh(0, 0, 10, 10)),
        DrawCommand::TextCentered {
            x: scalar(5.0),
            y: scalar(5.0),
            text: "0.90".to_string(),
            argb: 0xFF00_FF00,
        }
    );
}

#[test]
fn box_candidates_ring_the_box() {
    let bbox = Rect::from_xywh(50, 60, 40, 30);
    let candidates = box_label_candidates(bbox, 20);
    assert_eq!(
        candidates,
        vec![
            Rect::from_xywh(50, 46, 20, 12),
            Rect::from_xywh(50, 92, 20, 12),
            Rect::from_xywh(92, 60, 20, 12),
            Rect::from_xywh(28, 60, 20, 12),
            Rect::from_xywh(50, 34, 20, 12),
            Rect::from_xywh(50, 104, 20, 12),
            Rect::from_xywh(104, 60, 20, 12),
            Rect::from_xywh(16, 60, 20, 12),
        ]
    );
    assert_eq!(
        candidates_for(CandidateKind::Box, bbox, Rect::from_xywh(0, 0, 20, 12)),
        candidates
    );
    assert_eq!(
        candidates_for(
            CandidateKind::Point,
            Rect::from_xywh(100, 100, 0, 0),
            Rect::from_xywh(0, 0, 20, 10)
        ),
        point_label_candidates(100, 100, 20, 10)
    );
}

#[test]
fn point_candidates_spare_the_point() {
    for candidate in point_label_candidates(100, 100, 20, 10) {
        assert!(!candidate.intersects(Rect::from_xywh(100, 100, 1, 1)));
    }
}

#[test]
fn leader_lines_are_drawn_one_pixel_wide() {
    let mut commands = vec![DrawCommand::NoOp];
    push_leader_line(&mut commands, (1, 2), (3, 4), 7);
    assert_eq!(
        commands,
        vec![
            DrawCommand::NoOp,
            DrawCommand::Line {
                x0: scalar(1.0),
                y0: scalar(2.0),
                x1: scalar(3.0),
                y1: scalar(4.0),
                argb: 7,
                width: scalar(1.0),
            }
        ]
    );
}

#[test]
fn positions_near_the_coordinate_limits_are_refused() {
    assert!(point_label_fits(100, 100, 20, 10));
    assert!(!point_label_fits(i32::MIN, 100, 20, 10));
    let near = rect(0, 0, 20, 12);
    assert!(is_placeable(&point_label("a", 10, 10, near, 0)));
    assert!(!is_placeable(&point_label("a", i32::MAX, 10, near, 0)));
}

#[test]
fn clear_labels_stay_apart() {
    // Two labels with room for both: neither overlaps the other or the claim.
    let claim = Rect::from_xywh(0, 0, 30, 30);
    let a = Rect::from_xywh(40, 40, 40, 12);
    let b = Rect::from_xywh(60, 44, 40, 12);
    let intents = vec![
        box_label("a", Rect::from_xywh(40, 52, 40, 30), a, 0),
        box_label("b", Rect::from_xywh(60, 56, 40, 30), b, 0),
    ];
    let commands = place_labels(
        300,
        300,
        &[ClaimedRegion::occlude(claim, "other", 0)],
        &intents,
    );
    let corners: Vec<(Scalar, Scalar)> = commands.iter().filter_map(label_rect).collect();
    assert_eq!(corners.len(), 2);
    let rects: Vec<Rect> = corners
        .iter()
        .map(|(x, y)| Rect::from_xywh(x.floor_to_i32(), y.floor_to_i32() - 12, 40, 12))
        .collect();
    assert_eq!(rects[0], a);
    assert!(!rects[0].intersects(rects[1]));
    assert!(!rects[1].intersects(claim));
}

fn anchored_label(text: &str, x: i32, priority: i32) -> LabelIntent {
    let anchor = Rect::from_xywh(10, 12, 40, 30);
    box_label(text, anchor, Rect::from_xywh(x, 0, 40, 12), priority)
}

fn text(x: f32, y: f32, text: &str) -> DrawCommand {
    DrawCommand::Text { x: scalar(x), y: scalar(y), text: text.to_string(), argb: 0xFFFF_FFFF }
}

fn leader(x0: f32, y0: f32, x1: f32, y1: f32) -> DrawCommand {
    DrawCommand::Line {
        x0: scalar(x0),
        y0: scalar(y0),
        x1: scalar(x1),
        y1: scalar(y1),
        argb: 0xFFFF_FFFF,
        width: scalar(1.0),
    }
}

#[test]
fn a_label_over_a_minor_claim_is_still_avoided() {
    // The claim is too minor for "a", which is drawn over it; for "b" it counts.
    let claims = [ClaimedRegion::occlude(Rect::from_xywh(10, 0, 5, 12), "kp", 1)];
    let intents = [anchored_label("a", 10, 5), anchored_label("b", 20, 1)];
    assert_eq!(
        place_labels(200, 200, &claims, &intents),
        vec![text(10.0, 12.0, "a"), leader(30.0, 42.0, 30.0, 44.0), text(10.0, 56.0, "b")]
    );
}

#[test]
fn claims_without_an_owner_are_avoided() {
    let claims = [ClaimedRegion::occlude(Rect::from_xywh(10, 0, 40, 12), "", 9)];
    assert_eq!(
        place_labels(200, 200, &claims, &[anchored_label("person", 10, 5)]),
        vec![leader(30.0, 42.0, 30.0, 44.0), text(10.0, 56.0, "person")]
    );
}

#[test]
fn without_soft_regions_the_first_clear_position_wins() {
    let mut registry = OccupiedRegionRegistry::new(200, 200);
    registry.reserve_highlight(rect(0, 0, 60, 60));
    let candidates = [rect(20, 20, 10, 10), rect(100, 0, 10, 10), rect(100, 100, 10, 10)];
    let placement = place_label(&mut registry, rect(10, 10, 10, 10), &candidates).unwrap();
    assert_eq!(placement.rect, candidates[1]);
    assert!(placement.displaced);
    assert_eq!(registry.len(), 2);
}

#[test]
fn a_crowded_label_goes_where_it_covers_least() {
    let place = |default: Rect| {
        let mut registry = OccupiedRegionRegistry::new(100, 100);
        registry.reserve_highlight(rect(0, 0, 100, 100));
        let candidates = [rect(0, 0, 30, 30), rect(95, 0, 30, 30), rect(95, 50, 30, 30)];
        place_label(&mut registry, default, &candidates).unwrap()
    };
    // What the default covers plays no part.
    for default in [rect(99, 99, 40, 40), rect(0, 0, 90, 90)] {
        let placement = place(default);
        assert_eq!(placement.rect, rect(95, 0, 30, 30));
        assert!(placement.displaced);
    }
}

#[test]
fn candidates_depend_on_the_size_of_a_label_only() {
    let anchor = rect(50, 60, 40, 30);
    for kind in [CandidateKind::Box, CandidateKind::Point] {
        assert_eq!(
            candidates_for(kind, anchor, rect(0, 0, 20, 12)),
            candidates_for(kind, anchor, rect(-70, 33, 20, 12))
        );
    }
}
