use gstoverlays::geometry::Rect;
use gstoverlays::meta_transform::{MetaTransform, RectMap, ScaleRatio};

#[test]
fn scale_rect_doubles_on_2x_upscale() {
    let ratio = ScaleRatio {
        in_w: 100,
        in_h: 100,
        out_w: 200,
        out_h: 200,
    };
    assert_eq!(
        ratio.scale_rect(Rect::from_xywh(10, 20, 30, 40)),
        Rect::from_xywh(20, 40, 60, 80)
    );
}

#[test]
fn scale_rect_handles_anisotropic_and_zero_input() {
    // Different x/y ratios.
    let ratio = ScaleRatio {
        in_w: 100,
        in_h: 50,
        out_w: 50,
        out_h: 200,
    };
    assert_eq!(
        ratio.scale_rect(Rect::from_xywh(20, 10, 40, 10)),
        Rect::from_xywh(10, 40, 20, 40)
    );

    // A zero input dimension must not divide by zero.
    let degenerate = ScaleRatio {
        in_w: 0,
        in_h: 0,
        out_w: 100,
        out_h: 100,
    };
    let _ = degenerate.scale_rect(Rect::from_xywh(1, 1, 1, 1));
}

#[test]
fn a_copy_maps_every_rect_to_itself() {
    let map = MetaTransform::Copy.rect_map();
    assert_eq!(map, Some(RectMap::Identity));
    let rect = Rect::from_xywh(3, 4, 5, 6);
    assert_eq!(RectMap::Identity.apply(rect, None), Some(rect));
}

#[test]
fn a_scale_maps_by_its_ratio() {
    let ratio = ScaleRatio { in_w: 10, in_h: 10, out_w: 30, out_h: 20 };
    let map = MetaTransform::Scale(Some(ratio)).rect_map();
    assert_eq!(map, Some(RectMap::Ratio(ratio)));
    assert_eq!(
        RectMap::Ratio(ratio).apply(Rect::from_xywh(1, 2, 3, 4), None),
        Some(Rect::from_xywh(3, 4, 9, 8))
    );
    assert_eq!(MetaTransform::Scale(None).rect_map(), None);
    assert_eq!(MetaTransform::Unknown.rect_map(), None);
}

#[test]
fn a_scale_to_the_same_size_changes_nothing() {
    let ratio = ScaleRatio { in_w: 640, in_h: 480, out_w: 640, out_h: 480 };
    let rect = Rect::from_xywh(17, 33, 101, 57);
    assert_eq!(ratio.scale_rect(rect), rect);
}

#[test]
fn a_matrix_takes_the_clipped_rect() {
    let clipped = Rect::from_xywh(1, 1, 2, 2);
    assert_eq!(
        RectMap::Matrix.apply(Rect::from_xywh(0, 0, 9, 9), Some(clipped)),
        Some(clipped)
    );
    assert_eq!(RectMap::Matrix.apply(Rect::from_xywh(0, 0, 9, 9), None), None);
}
