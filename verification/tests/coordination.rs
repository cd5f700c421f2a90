use gstoverlays::coordination::{
    add_claimed_regions, claim_commands, claimed_regions, decode, encode,
    seed_registry_from_claims, seed_registry_from_every_owner, seed_registry_from_regions,
    transform_claims, ClaimKind, ClaimMeta, ClaimedRegion, DEFAULT_PRIORITY,
};
use gstoverlays::geometry::{OccupiedRegionRegistry, Rect, RegionPriority};
use gstoverlays::meta_transform::{MetaTransform, ScaleRatio};
use gstoverlays::overlay_intent::{label_intents, CandidateKind, LabelIntent};
use gstoverlays::publish::{publish_overlay, Publication};
use gstoverlays::render::DrawCommand;
use gstoverlays::scalar::Scalar;

fn scalar(v: f32) -> Scalar {
    Scalar::from_bits(v.to_bits())
}

#[test]
fn round_trip_preserves_regions() {
    let input = vec![
        ClaimedRegion::occlude(Rect::from_xywh(10, 20, 30, 40), "hair-spikes", 5),
        ClaimedRegion {
            rect: Rect::from_xywh(100, 5, 50, 12),
            kind: ClaimKind::Avoid,
            owner: "saliency".to_string(),
            priority: 7,
        },
    ];

    let mut meta = None;
    add_claimed_regions(&mut meta, &input);

    // Round-trips rect, kind, owner and priority.
    assert_eq!(claimed_regions(&meta), input);
}

// A `videoscale` between two coordinating elements rescales the claims into
// its output coordinate space, so downstream reads them in its own space.
#[test]
fn claims_rescale_across_videoscale() {
    let mut meta = None;
    add_claimed_regions(
        &mut meta,
        &[ClaimedRegion::occlude(
            Rect::from_xywh(10, 20, 30, 40),
            "od",
            4,
        )],
    );

    let scale = MetaTransform::Scale(Some(ScaleRatio {
        in_w: 100,
        in_h: 100,
        out_w: 200,
        out_h: 200,
    }));
    let map = scale.rect_map().expect("a scale with its sizes has a map");
    let out = Some(transform_claims(&meta.unwrap(), map, &[None]));

    let regions = claimed_regions(&out);
    assert_eq!(regions.len(), 1);
    // 100x100 -> 200x200 doubles every coordinate; kind/owner/priority survive.
    assert_eq!(regions[0].rect, Rect::from_xywh(20, 40, 60, 80));
    assert_eq!(regions[0].kind, ClaimKind::Occlude);
    assert_eq!(regions[0].owner, "od");
    assert_eq!(regions[0].priority, 4);
}

// With letterbox borders (aspect change + add-borders), the matrix transform
// offsets the claims by the border, not just a stretch.
#[test]
fn claims_offset_by_letterbox_borders() {
    let mut meta = None;
    add_claimed_regions(
        &mut meta,
        &[ClaimedRegion::occlude(
            Rect::from_xywh(10, 20, 30, 40),
            "od",
            0,
        )],
    );

    // A 100x100 (1:1) frame fitted into 300x100 stays 100 wide, centred, leaving a
    // 100px pillarbox each side.
    let clipped: Vec<Option<Rect>> = claimed_regions(&meta)
        .iter()
        .map(|claim| {
            Some(Rect::from_xywh(
                claim.rect.left + 100,
                claim.rect.top,
                claim.rect.width(),
                claim.rect.height(),
            ))
        })
        .collect();
    let matrix = MetaTransform::Matrix { described: true };
    let map = matrix.rect_map().expect("a described matrix has a map");
    let out = Some(transform_claims(&meta.unwrap(), map, &clipped));

    let regions = claimed_regions(&out);
    assert_eq!(regions.len(), 1);
    // No vertical scale (100->100), shifted right by the 100px border; a plain
    // stretch would instead give x=30, w=90.
    assert_eq!(regions[0].rect, Rect::from_xywh(110, 20, 30, 40));
}

// A plain copy (no scaling) carries the claims verbatim.
#[test]
fn claims_copy_verbatim_on_deep_copy() {
    let input = vec![ClaimedRegion::occlude(
        Rect::from_xywh(10, 20, 30, 40),
        "od",
        4,
    )];
    let mut meta = None;
    add_claimed_regions(&mut meta, &input);

    let map = MetaTransform::Copy.rect_map().expect("a copy has a map");
    let copied = Some(transform_claims(&meta.unwrap(), map, &[None]));
    assert_eq!(claimed_regions(&copied), input);
}

#[test]
fn add_claimed_regions_merges_successive_producers() {
    let mut meta = None;
    add_claimed_regions(
        &mut meta,
        &[ClaimedRegion::occlude(
            Rect::from_xywh(0, 0, 10, 10),
            "a",
            0,
        )],
    );
    add_claimed_regions(
        &mut meta,
        &[ClaimedRegion::occlude(
            Rect::from_xywh(20, 20, 10, 10),
            "b",
            0,
        )],
    );

    let regions = claimed_regions(&meta);
    assert_eq!(regions.len(), 2);
    assert_eq!(regions[0].owner, "a");
    assert_eq!(regions[1].owner, "b");
}

#[test]
fn seeding_makes_the_registry_treat_claims_as_occupied() {
    let claimed = Rect::from_xywh(40, 40, 60, 30);
    let mut meta = None;
    add_claimed_regions(
        &mut meta,
        &[ClaimedRegion::occlude(claimed, "hair-spikes", 0)],
    );

    let mut registry = OccupiedRegionRegistry::new(200, 200);
    seed_registry_from_claims(&mut registry, &meta, "odoverlay", 0);

    // The claimed area is now occupied, so a label cannot be reserved there.
    assert!(registry.is_occupied(RegionPriority::Label, claimed));
    assert!(!registry.reserve_label(Rect::from_xywh(50, 50, 20, 10)));
    // Elsewhere is still free.
    assert!(registry.reserve_label(Rect::from_xywh(150, 150, 20, 10)));
}

#[test]
fn avoid_claims_are_seeded_as_soft_regions() {
    let claimed = Rect::from_xywh(40, 40, 60, 30);
    let mut meta = None;
    add_claimed_regions(
        &mut meta,
        &[ClaimedRegion::avoid(claimed, "segoverlay", 0)],
    );

    let mut registry = OccupiedRegionRegistry::new(200, 200);
    seed_registry_from_claims(&mut registry, &meta, "odoverlay", 0);

    // Unlike an Occlude claim, an Avoid claim is soft: it does not block a
    // label (so the label may still be placed there when forced) ...
    assert!(!registry.is_occupied(RegionPriority::Label, claimed));
    assert!(registry.reserve_label(Rect::from_xywh(50, 50, 20, 10)));
    // ... but it is measurable, so placement steers around it when it can.
    assert!(registry.avoid_overlap_area(claimed).unwrap() > 0);
}

#[test]
fn claim_commands_publishes_solid_content_only() {
    let commands = vec![
        DrawCommand::Rectangle {
            x: scalar(10.0),
            y: scalar(20.0),
            width: scalar(40.0),
            height: scalar(30.0),
            rotation: scalar(0.0),
            argb: 0,
            filled: false,
        },
        DrawCommand::Text {
            x: scalar(10.0),
            y: scalar(20.0),
            text: "person".to_string(),
            argb: 0,
        },
        // A leader line: must NOT be claimed.
        DrawCommand::Line {
            x0: scalar(0.0),
            y0: scalar(0.0),
            x1: scalar(9.0),
            y1: scalar(9.0),
            argb: 0,
            width: scalar(1.0),
        },
    ];

    let mut meta = None;
    claim_commands(&mut meta, &commands, &[0, 37, 0], "odoverlay", 0);

    let regions = claimed_regions(&meta);
    // Rectangle + Text are claimed; the Line is not.
    assert_eq!(regions.len(), 2);
    assert!(regions.iter().all(|r| r.owner == "odoverlay"));

    // The outline box (filled: false) is a soft Avoid; the text label is a
    // hard Occlude.
    let box_region = regions
        .iter()
        .find(|r| r.rect == Rect::from_xywh(10, 20, 40, 30))
        .expect("box region claimed");
    assert_eq!(box_region.kind, ClaimKind::Avoid);
    let text_region = regions
        .iter()
        .find(|r| r.rect != Rect::from_xywh(10, 20, 40, 30))
        .expect("text region claimed");
    assert_eq!(text_region.kind, ClaimKind::Occlude);
    assert_eq!(text_region.rect, Rect::from_xywh(10, 8, 37, 12));
}

#[test]
fn claim_commands_marks_filled_boxes_as_occlude() {
    let commands = vec![DrawCommand::Rectangle {
        x: scalar(0.0),
        y: scalar(0.0),
        width: scalar(20.0),
        height: scalar(20.0),
        rotation: scalar(0.0),
        argb: 0,
        filled: true,
    }];

    let mut meta = None;
    claim_commands(&mut meta, &commands, &[0], "odoverlay", 3);

    let regions = claimed_regions(&meta);
    assert_eq!(regions.len(), 1);
    // A filled box is opaque, so it is a hard Occlude.
    assert_eq!(regions[0].kind, ClaimKind::Occlude);
    // All claims carry the element priority passed to claim_commands.
    assert_eq!(regions[0].priority, 3);
}

#[test]
fn seeding_skips_the_consumers_own_claims() {
    let mut meta = None;
    add_claimed_regions(
        &mut meta,
        &[ClaimedRegion::occlude(
            Rect::from_xywh(10, 10, 40, 40),
            "odoverlay",
            0,
        )],
    );

    let mut registry = OccupiedRegionRegistry::new(200, 200);
    seed_registry_from_claims(&mut registry, &meta, "odoverlay", 0);

    // Our own prior claim must not block our placement.
    assert!(registry.is_empty());
}

#[test]
fn seeding_ignores_lower_priority_claims_but_honours_higher() {
    let low = Rect::from_xywh(10, 10, 40, 40);
    let high = Rect::from_xywh(120, 120, 40, 40);
    let mut meta = None;
    add_claimed_regions(
        &mut meta,
        &[
            ClaimedRegion::occlude(low, "label-overlay", 1),
            ClaimedRegion::occlude(high, "keypoint-overlay", 9),
        ],
    );

    // We place content at priority 5: we must respect the priority-9 claim
    // (avoid it) but overdraw the priority-1 claim (it is not seeded).
    let mut registry = OccupiedRegionRegistry::new(200, 200);
    seed_registry_from_claims(&mut registry, &meta, "ours", 5);

    assert!(
        !registry.is_occupied(RegionPriority::Label, low),
        "lower-priority claim should be overdrawn, not avoided"
    );
    assert!(
        registry.is_occupied(RegionPriority::Label, high),
        "higher-priority claim must still be avoided"
    );
}

#[test]
fn broken_claim_meta_reads_with_defaults() {
    assert!(claimed_regions(&None).is_empty());
    assert!(decode(&ClaimMeta { coords: None, owners: None }).is_empty());
    assert!(decode(&ClaimMeta { coords: Some(vec![Some(1); 5]), owners: None }).is_empty());
    let regions = decode(&ClaimMeta {
        coords: Some(vec![Some(1), None, Some(3), Some(4), Some(99), Some(6), Some(8)]),
        owners: None,
    });
    assert_eq!(regions.len(), 1);
    assert_eq!(regions[0].rect, Rect::from_xywh(1, 0, 3, 4));
    assert_eq!(regions[0].kind, ClaimKind::Occlude);
    assert_eq!(regions[0].owner, "");
    assert_eq!(regions[0].priority, 6);
}

#[test]
fn adding_nothing_writes_no_meta() {
    let mut meta = None;
    add_claimed_regions(&mut meta, &[]);
    assert!(meta.is_none());
    assert_eq!(DEFAULT_PRIORITY, 0);
}

#[test]
fn encoded_claims_hold_six_numbers_each() {
    let meta = encode(&[ClaimedRegion::avoid(Rect::from_xywh(1, 2, 3, 4), "o", -5)]);
    assert_eq!(
        meta.coords,
        Some(vec![Some(1), Some(2), Some(3), Some(4), Some(1), Some(-5)])
    );
    assert_eq!(meta.owners, Some(vec![Some("o".to_string())]));
}

fn deferred() -> LabelIntent {
    LabelIntent {
        text: "cat".to_string(),
        color: 1,
        anchor: Rect::from_xywh(1, 2, 3, 4),
        preferred: Rect::from_xywh(5, 6, 7, 8),
        kind: CandidateKind::Box,
        priority: 2,
        owner: "odoverlay".to_string(),
    }
}

fn circle() -> DrawCommand {
    DrawCommand::Circle {
        cx: scalar(50.0),
        cy: scalar(60.0),
        radius: scalar(3.0),
        argb: 0,
    }
}

#[test]
fn an_overlay_publishes_its_content_and_its_labels() {
    let mut claims = None;
    let mut labels = None;
    let publication = Publication {
        publish_claimed_regions: true,
        builtins_suppressed: false,
        priority: 4,
    };
    publish_overlay(
        &mut claims,
        &mut labels,
        &[circle()],
        &[0],
        &[deferred()],
        "kp",
        publication,
    );
    let regions = claimed_regions(&claims);
    assert_eq!(regions, vec![ClaimedRegion::occlude(Rect::from_xywh(47, 57, 7, 7), "kp", 4)]);
    assert_eq!(label_intents(&labels), vec![deferred()]);
}

#[test]
fn a_suppressed_overlay_publishes_no_content() {
    let mut claims = None;
    let mut labels = None;
    let publication = Publication {
        publish_claimed_regions: true,
        builtins_suppressed: true,
        priority: 4,
    };
    publish_overlay(
        &mut claims,
        &mut labels,
        &[circle()],
        &[0],
        &[deferred()],
        "kp",
        publication,
    );
    assert!(claims.is_none());
}

#[test]
fn overlapping_claims_are_all_reserved() {
    let regions = [
        ClaimedRegion::occlude(Rect::from_xywh(10, 10, 40, 40), "a", 5),
        ClaimedRegion::occlude(Rect::from_xywh(40, 40, 40, 40), "b", 5),
    ];
    let mut registry = OccupiedRegionRegistry::new(200, 200);
    seed_registry_from_regions(&mut registry, &regions, "ours", 5);
    assert_eq!(registry.len(), 2);
    // A part of the second claim that the first one does not cover.
    assert!(!registry.reserve_label(Rect::from_xywh(60, 60, 10, 10)));
}

#[test]
fn only_a_named_owner_is_skipped() {
    let regions = [
        ClaimedRegion::occlude(Rect::from_xywh(0, 0, 10, 10), "", 5),
        ClaimedRegion::occlude(Rect::from_xywh(20, 0, 10, 10), "ours", 5),
        ClaimedRegion::occlude(Rect::from_xywh(40, 0, 10, 10), "ours", 4),
    ];
    let seeded = |skip: Option<&str>| {
        let mut registry = OccupiedRegionRegistry::new(200, 200);
        match skip {
            Some(owner) => seed_registry_from_regions(&mut registry, &regions, owner, 5),
            None => seed_registry_from_every_owner(&mut registry, &regions, 5),
        }
        registry.len()
    };
    assert_eq!(seeded(None), 2);
    assert_eq!(seeded(Some("ours")), 1);
    assert_eq!(seeded(Some("")), 1);
    assert_eq!(seeded(Some("other")), 2);
}
