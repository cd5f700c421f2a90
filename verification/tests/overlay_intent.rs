use gstoverlays::coordination::{add_claimed_regions, ClaimMeta, ClaimedRegion};
use gstoverlays::geometry::Rect;
use gstoverlays::meta_transform::{MetaTransform, ScaleRatio};
use gstoverlays::overlay_intent::{
    add_label_intents, decode, encode, label_intents, transform_labels, CandidateKind, LabelIntent,
    LabelMeta,
};
use gstoverlays::overlaycompositor::composite_labels;
use gstoverlays::render::DrawCommand;

fn sample() -> Vec<LabelIntent> {
    vec![
        LabelIntent {
            text: "person (c=0.90)".to_string(),
            color: 0xFFFF_FFFF,
            anchor: Rect::from_xywh(10, 20, 40, 30),
            preferred: Rect::from_xywh(10, 8, 80, 12),
            kind: CandidateKind::Box,
            priority: 5,
            owner: "odoverlay".to_string(),
        },
        LabelIntent {
            text: "0.88".to_string(),
            color: 0xFF00_FF00,
            anchor: Rect::from_xywh(100, 100, 0, 0),
            preferred: Rect::from_xywh(96, 84, 32, 12),
            kind: CandidateKind::Point,
            priority: 9,
            owner: "keypointsoverlay".to_string(),
        },
    ]
}

#[test]
fn round_trip_preserves_label_intents() {
    let input = sample();
    let mut meta = None;
    add_label_intents(&mut meta, &input);

    assert_eq!(label_intents(&meta), input);
}

// Deferred labels also cross scalers (element ! videoscale ! compositor), so
// their anchor and preferred rects rescale into the output space.
#[test]
fn label_intents_rescale_across_videoscale() {
    let input = vec![LabelIntent {
        text: "person".to_string(),
        color: 0xFFFF_FFFF,
        anchor: Rect::from_xywh(10, 20, 40, 30),
        preferred: Rect::from_xywh(10, 8, 80, 12),
        kind: CandidateKind::Box,
        priority: 5,
        owner: "odoverlay".to_string(),
    }];
    let mut meta = None;
    add_label_intents(&mut meta, &input);

    let scale = MetaTransform::Scale(Some(ScaleRatio {
        in_w: 100,
        in_h: 100,
        out_w: 200,
        out_h: 200,
    }));
    let map = scale.rect_map().expect("a scale with its sizes has a map");
    let out = Some(transform_labels(&meta.unwrap(), map, &[None], &[None]));

    let labels = label_intents(&out);
    assert_eq!(labels.len(), 1);
    // 100x100 -> 200x200 doubles both rects; text/color/kind/priority survive.
    assert_eq!(labels[0].anchor, Rect::from_xywh(20, 40, 80, 60));
    assert_eq!(labels[0].preferred, Rect::from_xywh(20, 16, 160, 24));
    assert_eq!(labels[0].text, "person");
    assert_eq!(labels[0].priority, 5);
}

// A plain copy carries the label intents verbatim.
#[test]
fn label_intents_copy_verbatim_on_deep_copy() {
    let input = sample();
    let mut meta = None;
    add_label_intents(&mut meta, &input);

    let map = MetaTransform::Copy.rect_map().expect("a copy has a map");
    let copied = Some(transform_labels(&meta.unwrap(), map, &[None, None], &[None, None]));
    assert_eq!(label_intents(&copied), input);
}

#[test]
fn add_label_intents_merges_successive_producers() {
    let input = sample();
    let mut meta = None;
    add_label_intents(&mut meta, &input[..1]);
    add_label_intents(&mut meta, &input[1..]);

    assert_eq!(label_intents(&meta), input);
}

#[test]
fn no_meta_reads_as_empty() {
    assert!(label_intents(&None).is_empty());
}

#[test]
fn a_matrix_drops_labels_that_leave_the_frame() {
    let meta = encode(&sample());
    let map = MetaTransform::Matrix { described: true }.rect_map().unwrap();
    let moved = Rect::from_xywh(1, 2, 3, 4);
    let out = transform_labels(&meta, map, &[Some(moved), None], &[Some(moved), Some(moved)]);
    let labels = decode(&out);
    assert_eq!(labels.len(), 1);
    assert_eq!(labels[0].anchor, moved);
    assert_eq!(labels[0].text, "person (c=0.90)");
}

#[test]
fn broken_label_meta_reads_with_defaults() {
    // No list at all.
    assert!(decode(&LabelMeta { coords: None, texts: None, owners: None }).is_empty());
    // Too few numbers for one label.
    assert!(decode(&LabelMeta {
        coords: Some(vec![Some(1); 10]),
        texts: None,
        owners: None
    })
    .is_empty());
    // Fields of another type read as zero, missing strings as empty.
    let labels = decode(&LabelMeta {
        coords: Some(vec![None; 11]),
        texts: None,
        owners: Some(vec![None]),
    });
    assert_eq!(labels.len(), 1);
    assert_eq!(labels[0].text, "");
    assert_eq!(labels[0].owner, "");
    assert_eq!(labels[0].kind, CandidateKind::Box);
    assert_eq!(labels[0].anchor, Rect::from_xywh(0, 0, 0, 0));
}

#[test]
fn compositing_reads_both_metas() {
    let none: Option<ClaimMeta> = None;
    assert_eq!(composite_labels(200, 200, &none, &None), None);

    let mut labels = None;
    add_label_intents(&mut labels, &sample()[..1]);
    let commands = composite_labels(200, 200, &none, &labels).expect("there is a label");
    assert_eq!(commands.len(), 1);
    assert!(matches!(commands[0], DrawCommand::Text { .. }));

    let mut claims = None;
    add_claimed_regions(
        &mut claims,
        &[ClaimedRegion::occlude(Rect::from_xywh(10, 8, 80, 12), "other", 5)],
    );
    let commands = composite_labels(200, 200, &claims, &labels).expect("there is a label");
    assert_eq!(commands.len(), 2);
    assert!(matches!(commands[0], DrawCommand::Line { .. }));
}
