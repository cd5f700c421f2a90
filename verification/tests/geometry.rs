use gstoverlays::geometry::{
    frame_has_room, halved, saturating_difference, saturating_sum, OccupiedRegionRegistry, Rect,
    RegionPriority,
};

#[test]
fn rect_intersection_and_dimensions_work() {
    let rect = Rect::from_xywh(10, 20, 30, 40);

    assert_eq!(rect.left, 10);
    assert_eq!(rect.top, 20);
    assert_eq!(rect.right, 40);
    assert_eq!(rect.bottom, 60);
    assert_eq!(rect.width(), 30);
    assert_eq!(rect.height(), 40);
    assert!(!rect.is_empty());
}

#[test]
fn registry_clips_regions_to_frame_bounds() {
    let mut registry = OccupiedRegionRegistry::new(100, 100);

    assert!(registry.reserve_highlight(Rect::from_xywh(-10, -10, 30, 30)));
    assert!(registry.is_occupied(RegionPriority::Label, Rect::from_xywh(0, 0, 1, 1)));
    assert!(!registry.is_occupied(RegionPriority::Label, Rect::from_xywh(40, 40, 1, 1)));
}

#[test]
fn labels_do_not_overlap_existing_highlights() {
    let mut registry = OccupiedRegionRegistry::new(200, 200);

    assert!(registry.reserve_highlight(Rect::from_xywh(10, 10, 40, 20)));
    assert!(!registry.reserve_label(Rect::from_xywh(20, 15, 30, 10)));
    assert!(registry.reserve_label(Rect::from_xywh(80, 80, 20, 10)));
    assert_eq!(registry.len(), 2);
}

#[test]
fn higher_priority_regions_can_be_added_after_labels() {
    let mut registry = OccupiedRegionRegistry::new(200, 200);

    assert!(registry.reserve_label(Rect::from_xywh(20, 20, 20, 20)));
    assert!(registry.reserve_highlight(Rect::from_xywh(25, 25, 10, 10)));
    assert_eq!(registry.len(), 2);
}

#[test]
fn clearing_a_frame_resets_the_registry() {
    let mut registry = OccupiedRegionRegistry::new(100, 100);

    assert!(registry.reserve_highlight(Rect::from_xywh(0, 0, 20, 20)));
    registry.clear(50, 50);

    assert!(registry.is_empty());
    assert!(registry.reserve_label(Rect::from_xywh(0, 0, 20, 20)));
}

#[test]
fn rect_center_is_the_midpoint() {
    assert_eq!(Rect::from_xywh(10, 20, 40, 20).center(), (30, 30));
}

#[test]
fn closest_point_to_lands_on_the_nearest_edge() {
    let rect = Rect::from_xywh(10, 20, 40, 20); // left 10, top 20, right 50, bottom 40

    // Feature above-left clamps to the top-left corner.
    assert_eq!(rect.closest_point_to((0, 0)), (10, 20));
    // Feature directly below clamps onto the bottom edge at the same x.
    assert_eq!(rect.closest_point_to((30, 100)), (30, 40));
    // Feature to the right clamps onto the right edge at the same y.
    assert_eq!(rect.closest_point_to((90, 25)), (50, 25));
    // Feature inside the rect is returned unchanged.
    assert_eq!(rect.closest_point_to((30, 30)), (30, 30));
}

#[test]
fn overlap_area_sums_intersections_with_relevant_regions() {
    let mut registry = OccupiedRegionRegistry::new(100, 100);
    registry.reserve_highlight(Rect::from_xywh(0, 0, 20, 20));
    registry.reserve_highlight(Rect::from_xywh(30, 0, 20, 20));

    // A label rect overlapping the first highlight by 10x20 and the second
    // by 10x20 => 200 + 200 = 400.
    let area = registry
        .label_overlap_area(Rect::from_xywh(10, 0, 30, 20))
        .expect("rect intersects the frame");
    assert_eq!(area, 400);

    // No overlap with any region.
    assert_eq!(
        registry.label_overlap_area(Rect::from_xywh(60, 60, 10, 10)),
        Some(0)
    );

    // Entirely outside the frame.
    assert_eq!(
        registry.label_overlap_area(Rect::from_xywh(200, 200, 10, 10)),
        None
    );
}

#[test]
fn force_reserve_inserts_even_when_overlapping() {
    let mut registry = OccupiedRegionRegistry::new(100, 100);
    registry.reserve_highlight(Rect::from_xywh(0, 0, 50, 50));

    // A normal reserve would refuse this overlapping label.
    assert!(!registry.reserve_label(Rect::from_xywh(10, 10, 20, 20)));
    // force_reserve_label inserts it anyway, clipped to the frame.
    assert_eq!(
        registry.force_reserve_label(Rect::from_xywh(90, 90, 40, 40)),
        Some(Rect::from_xywh(90, 90, 10, 10))
    );
    // Off-frame rects are still rejected.
    assert_eq!(
        registry.force_reserve_label(Rect::from_xywh(200, 200, 10, 10)),
        None
    );
}

#[test]
fn saturating_arithmetic_stops_at_the_ends() {
    assert_eq!(saturating_sum(i32::MAX, 1), i32::MAX);
    assert_eq!(saturating_sum(i32::MIN, -1), i32::MIN);
    assert_eq!(saturating_sum(2, 3), 5);
    assert_eq!(saturating_difference(i32::MIN, 1), i32::MIN);
    assert_eq!(saturating_difference(i32::MAX, -1), i32::MAX);
    assert_eq!(halved(-7), -3);
    assert_eq!(halved(7), 3);
}

#[test]
fn far_rects_saturate() {
    let rect = Rect::from_xywh(i32::MAX - 5, 0, 10, 10);
    assert_eq!(rect.right, i32::MAX);
    assert_eq!(rect.width(), 5);
}

#[test]
fn intersection_holds_the_common_pixels() {
    let a = Rect::from_xywh(0, 0, 10, 10);
    let b = Rect::from_xywh(6, 4, 10, 10);
    assert_eq!(a.intersection(b), Some(Rect::from_xywh(6, 4, 4, 6)));
    assert!(a.intersects(b));
    let touching = Rect::from_xywh(10, 0, 5, 5);
    assert_eq!(a.intersection(touching), None);
    assert!(!a.intersects(touching));
    assert!(Rect::from_xywh(3, 3, 0, 5).is_empty());
}

#[test]
fn soft_regions_count_but_never_block() {
    let mut registry = OccupiedRegionRegistry::new(100, 100);
    assert!(registry.reserve_avoid(Rect::from_xywh(0, 0, 50, 50)));
    assert!(!registry.is_occupied(RegionPriority::Label, Rect::from_xywh(10, 10, 5, 5)));
    assert_eq!(registry.avoid_overlap_area(Rect::from_xywh(40, 40, 20, 20)), Some(100));
    assert_eq!(registry.label_overlap_area(Rect::from_xywh(40, 40, 20, 20)), Some(0));
    assert_eq!(registry.avoid_overlap_area(Rect::from_xywh(200, 40, 20, 20)), None);
    assert!(registry.reserve_label(Rect::from_xywh(10, 10, 5, 5)));
    assert!(registry.reserve_avoid(Rect::from_xywh(10, 10, 5, 5)));
    assert!(!registry.reserve(RegionPriority::Avoid, Rect::from_xywh(10, 10, 5, 5)));
    assert_eq!(
        registry.overlap_area(RegionPriority::Highlight, Rect::from_xywh(10, 10, 5, 5)),
        Some(0)
    );
    assert_eq!(
        registry.force_reserve(RegionPriority::Highlight, Rect::from_xywh(10, 10, 5, 5)),
        Some(Rect::from_xywh(10, 10, 5, 5))
    );
    assert_eq!(
        registry.overlap_area(RegionPriority::Highlight, Rect::from_xywh(10, 10, 5, 5)),
        Some(25)
    );
}

#[test]
fn reserved_regions_stay_apart() {
    let mut registry = OccupiedRegionRegistry::new(100, 100);
    assert!(registry.reserve_highlight(Rect::from_xywh(0, 0, 20, 20)));
    assert!(!registry.reserve_highlight(Rect::from_xywh(10, 10, 20, 20)));
    assert!(!registry.reserve_label(Rect::from_xywh(-20, 0, 10, 10)));
    assert_eq!(registry.len(), 1);
}

#[test]
fn a_frame_has_room_for_as_many_regions_as_their_areas_add_up() {
    assert!(frame_has_room(1920, 1080, 10_000));
    assert!(!frame_has_room(i32::MAX, i32::MAX, 1_000_000));
}

#[test]
fn a_later_region_meets_an_earlier_one_only_if_it_is_stronger() {
    let mut registry = OccupiedRegionRegistry::new(100, 100);
    assert!(registry.reserve(RegionPriority::Avoid, Rect::from_xywh(0, 0, 50, 50)));
    assert!(registry.reserve(RegionPriority::Label, Rect::from_xywh(10, 10, 20, 20)));
    assert!(registry.reserve(RegionPriority::Highlight, Rect::from_xywh(15, 15, 20, 20)));
    assert!(!registry.reserve(RegionPriority::Label, Rect::from_xywh(12, 12, 5, 5)));
    assert!(!registry.reserve(RegionPriority::Avoid, Rect::from_xywh(40, 40, 5, 5)));
    assert_eq!(registry.len(), 3);
    let copy = registry.clone();
    registry.clear(100, 100);
    assert!(registry.is_empty());
    assert_eq!(copy.len(), 3);
}
