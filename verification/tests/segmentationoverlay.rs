use gstoverlays::coordination::{claimed_regions, ClaimKind};
use gstoverlays::geometry::Rect;
use gstoverlays::packed::VideoFormat;
use gstoverlays::segmaskalpha;
use gstoverlays::segmaskalpha::{
    alpha_offset, box_blur, build_frame_alpha, mask_frame, object_map, write_alpha, ObjectMap,
    SamplePoint,
};
use gstoverlays::segmentationoverlay::{
    build_mask_filter, cached_mask_filter, claim_layers, color_for_segment, is_visible,
    related_classification, render_mask_canvas, segmentation_mask_layers, selected_type_names, update_selected_type_cache,
    visible_region, write_premultiplied_bgra, GrayMask, MaskFilterCache, MaskRegion, Segmentation,
    Settings, State,
};

fn hue_to_rgb(mut hue: f64) -> u32 {
    hue %= 360.0;
    if hue < 0.0 {
        hue += 360.0;
    }
    let x = ((1.0 - ((hue / 60.0) % 2.0 - 1.0).abs()) * 255.0).round() as u32;
    if hue < 60.0 {
        (255 << 16) | (x << 8)
    } else if hue < 120.0 {
        (x << 16) | (255 << 8)
    } else if hue < 180.0 {
        (255 << 8) | x
    } else if hue < 240.0 {
        (x << 8) | 255
    } else if hue < 300.0 {
        (x << 16) | 255
    } else {
        (255 << 16) | x
    }
}

fn segment_color(index: u64, hint: u32) -> u32 {
    let seed = 360.0 / hint.max(1) as f64;
    hue_to_rgb((seed + index as f64 * 137.507_764_050_037_85) % 360.0)
}

fn names(list: &[&str]) -> Vec<String> {
    list.iter().map(|name| name.to_string()).collect()
}

fn mask(width: usize, height: usize, data: &[u8]) -> GrayMask {
    GrayMask {
        data: data.to_vec(),
        stride: width,
        width,
        height,
    }
}

#[test]
fn reset_runtime_state_clears_cached_overlay_state() {
    let mut state: State<u8> = State::default();
    state.segment_colors.colors[1] = Some(0x00ff_0000);
    state.next_color_index = 1;
    state.composition = Some(7);
    state.attach_composition = true;
    assert!(!state.segment_colors.is_empty());

    state.reset();

    assert!(state.segment_colors.is_empty());
    assert_eq!(state.next_color_index, 0);
    assert!(state.composition.is_none());
    assert!(!state.attach_composition);
}

#[test]
fn selected_type_parser_ignores_empty_tokens() {
    let parsed = selected_type_names(&Some(" person ; ;car;".to_string()));
    let parsed = parsed.unwrap();
    assert_eq!(parsed.len(), 2);
    assert_eq!(parsed[0], "person");
    assert_eq!(parsed[1], "car");
}

#[test]
fn nothing_selected_is_no_selection() {
    assert_eq!(selected_type_names(&None), None);
    assert_eq!(selected_type_names(&Some(String::new())), None);
    assert_eq!(selected_type_names(&Some(" ; \t;".to_string())), None);
}

#[test]
fn existing_segment_color_persists_after_hint_change() {
    let mut state: State<()> = State::default();

    let first = color_for_segment(&mut state, 5, 10, &segment_color).unwrap();
    let _new_color_after_change = color_for_segment(&mut state, 11, 100, &segment_color).unwrap();
    let second = color_for_segment(&mut state, 5, 100, &segment_color).unwrap();

    assert_eq!(first, second);
}

#[test]
fn the_background_and_large_values_have_no_color() {
    let mut state: State<()> = State::default();
    assert_eq!(color_for_segment(&mut state, 0, 10, &segment_color), None);
    assert_eq!(color_for_segment(&mut state, 256, 10, &segment_color), None);
    assert_eq!(state.next_color_index, 0);
    assert_eq!(color_for_segment(&mut state, 255, 10, &segment_color), Some(segment_color(0, 10)));
    assert_eq!(state.next_color_index, 1);
}

#[test]
fn update_selected_type_cache_reuses_existing_parse() {
    let mut state: State<()> = State::default();

    update_selected_type_cache(&mut state, &Some("person;car".to_string()));
    let first_ptr = state
        .selected_type_names
        .as_ref()
        .map(|v| v.as_ptr())
        .unwrap();

    update_selected_type_cache(&mut state, &Some("person;car".to_string()));
    let second_ptr = state
        .selected_type_names
        .as_ref()
        .map(|v| v.as_ptr())
        .unwrap();

    assert_eq!(first_ptr, second_ptr);
}

#[test]
fn update_selected_type_cache_invalidates_mask_filter_cache_on_change() {
    let mut state: State<()> = State {
        mask_filter_cache: Some(MaskFilterCache {
            selected_types: Some(names(&["person"])),
            classes: names(&["person"]),
            filter: vec![true],
        }),
        ..Default::default()
    };

    update_selected_type_cache(&mut state, &Some("car".to_string()));

    assert!(state.mask_filter_cache.is_none());
    assert_eq!(state.selected_type_names, Some(names(&["car"])));
}

#[test]
fn filters_select_classes_by_name() {
    let classes = Some(names(&["background", "person", "car"]));
    let selected = Some(names(&["car", "person"]));
    assert_eq!(
        build_mask_filter(&classes, &selected),
        Some(vec![false, true, true])
    );
    assert_eq!(build_mask_filter(&classes, &None), None);
    assert_eq!(build_mask_filter(&None, &selected), None);

    let mut state: State<()> = State::default();
    let filter = cached_mask_filter(&mut state, &classes, &selected);
    assert_eq!(filter, Some(vec![false, true, true]));
    assert_eq!(cached_mask_filter(&mut state, &classes, &selected), filter);
    assert_eq!(
        cached_mask_filter(&mut state, &classes, &Some(names(&["background"]))),
        Some(vec![true, false, false])
    );
}

#[test]
fn visibility_follows_the_filter() {
    let filter = Some(vec![true, false, true]);
    assert!(!is_visible(&filter, 0));
    assert!(!is_visible(&filter, 1));
    assert!(is_visible(&filter, 2));
    assert!(!is_visible(&filter, 3));
    assert!(is_visible(&None, 200));
    assert!(!is_visible(&None, 0));
}

#[test]
fn pixels_are_premultiplied_with_rounding() {
    let mut canvas = Vec::new();
    write_premultiplied_bgra(&mut canvas, 0x00FF_8001, 128);
    assert_eq!(canvas, vec![1, 64, 128, 128]);
    write_premultiplied_bgra(&mut canvas, 0x0012_3456, 255);
    assert_eq!(canvas[4..], [0x56, 0x34, 0x12, 255]);
}

#[test]
fn a_mask_canvas_is_colored_by_value() {
    let mut state: State<()> = State::default();
    // Constant colours that tell the order of appearance.
    let generate = |index: u64, _hint: u32| 0x0010_0000 * (index as u32 + 1);
    let canvas = render_mask_canvas(
        &mask(2, 1, &[0, 9]),
        4,
        1,
        &None,
        &mut state,
        10,
        &generate,
    )
    .unwrap();
    assert_eq!(canvas.len(), 16);
    // The mask is scaled to the canvas: two transparent pixels, then two coloured ones.
    assert_eq!(canvas[..8], [0; 8]);
    assert_ne!(canvas[8..12], [0; 4]);
    assert_eq!(canvas[8..12], canvas[12..16]);
    assert_eq!(state.segment_colors.colors[9], Some(0x0010_0000));
    assert!(render_mask_canvas(&mask(0, 0, &[]), 4, 1, &None, &mut state, 10, &generate).is_none());
    assert!(
        render_mask_canvas(&mask(2, 1, &[0, 9]), 0, 1, &None, &mut state, 10, &generate).is_none()
    );
}

#[test]
fn regions_are_clipped_to_the_frame() {
    assert_eq!(
        visible_region(10, 20, 30, 40, 100, 100),
        Some(MaskRegion { x: 10, y: 20, width: 30, height: 40 })
    );
    assert_eq!(
        visible_region(90, 90, 30, 40, 100, 100),
        Some(MaskRegion { x: 90, y: 90, width: 10, height: 10 })
    );
    assert_eq!(visible_region(100, 0, 30, 40, 100, 100), None);
    assert_eq!(visible_region(0, 0, 0, 40, 100, 100), None);
}

fn segmentation(x: i32, y: i32, width: u32, height: u32, value: u8) -> Segmentation {
    Segmentation {
        mask: mask(2, 2, &[value, value, 0, value]),
        x,
        y,
        width,
        height,
        classes: Some(names(&["background", "person", "car"])),
    }
}

#[test]
fn layers_show_the_visible_masks_and_are_claimed() {
    let mut state: State<()> = State::default();
    let settings = Settings {
        selected_types: Some("person".to_string()),
        priority: 3,
        ..Settings::default()
    };
    let segmentations = [
        segmentation(0, 0, 4, 4, 1),
        segmentation(500, 0, 4, 4, 1),
        segmentation(8, 8, 4, 4, 2),
    ];
    let layers =
        segmentation_mask_layers(&segmentations, &mut state, &settings, 10, 10, &segment_color);
    assert_eq!(layers.len(), 2);
    assert_eq!(layers[0].region, MaskRegion { x: 0, y: 0, width: 4, height: 4 });
    assert_eq!(layers[1].region, MaskRegion { x: 8, y: 8, width: 2, height: 2 });
    assert!(layers[0].canvas.iter().any(|b| *b != 0));
    // Cars are not selected.
    assert!(layers[1].canvas.iter().all(|b| *b == 0));

    let mut meta = None;
    claim_layers(&mut meta, &layers, &settings);
    let regions = claimed_regions(&meta);
    assert_eq!(regions.len(), 2);
    assert_eq!(regions[0].rect, Rect::from_xywh(0, 0, 4, 4));
    assert_eq!(regions[0].kind, ClaimKind::Avoid);
    assert_eq!(regions[0].owner, "segoverlay");
    assert_eq!(regions[0].priority, 3);

    let mut none = None;
    let quiet = Settings { publish_claimed_regions: false, ..Settings::default() };
    claim_layers(&mut none, &layers, &quiet);
    assert!(none.is_none());
}

#[test]
fn segmentation_settings_have_their_documented_defaults() {
    let settings = Settings::default();
    assert!(!settings.render_enabled);
    assert_eq!(settings.hint_maximum_segment_type, 10);
    assert_eq!(settings.selected_types, None);
}

#[test]
fn a_blur_is_a_moving_average_in_both_directions() {
    let mut alpha = vec![0, 0, 255, 0, 0];
    let mut tmp = Vec::new();
    box_blur(&mut alpha, &mut tmp, 5, 1, 1);
    // Along the row 255 is spread over three pixels. Down the column a single row counts
    // once, and again as its own continuation, in a window of three.
    assert_eq!(tmp, vec![0, 85, 85, 85, 0]);
    assert_eq!(alpha, vec![0, 56, 56, 56, 0]);
    let mut same = vec![1, 2, 3];
    box_blur(&mut same, &mut tmp, 3, 1, 0);
    assert_eq!(same, vec![1, 2, 3]);
}

#[test]
fn object_maps_mark_visible_values() {
    let map = object_map(&mask(3, 1, &[0, 1, 2]), &Some(vec![true, true]));
    assert_eq!(map.data, vec![0, 255, 0]);
    assert_eq!((map.width, map.height), (3, 1));
}

fn nearest(objects: &ObjectMap, point: SamplePoint) -> u8 {
    let x = point.x as usize * objects.width / point.width as usize;
    let y = point.y as usize * objects.height / point.height as usize;
    objects.data[y * objects.width + x]
}

#[test]
fn frame_alpha_unites_the_objects() {
    let mut state: State<()> = State::default();
    let list = vec![segmentation(0, 0, 2, 2, 1), segmentation(1, 0, 2, 2, 2)];
    assert!(build_frame_alpha(&mut state, &None, 0, &Some(list), 4, 3, &nearest));
    assert_eq!(
        state.alpha_scratch,
        vec![255, 255, 255, 0, 0, 255, 255, 0, 0, 0, 0, 0]
    );
    // No metadata, or no mask that has pixels.
    assert!(!build_frame_alpha(&mut state, &None, 0, &None, 4, 3, &nearest));
    assert!(!build_frame_alpha(&mut state, &None, 0, &Some(Vec::new()), 4, 3, &nearest));
    // Only the selected class.
    let list = vec![segmentation(0, 0, 2, 2, 1), segmentation(1, 0, 2, 2, 2)];
    let only_cars = Some("car".to_string());
    assert!(build_frame_alpha(&mut state, &only_cars, 0, &Some(list), 4, 3, &nearest));
    assert_eq!(
        state.alpha_scratch,
        vec![0, 255, 255, 0, 0, 0, 255, 0, 0, 0, 0, 0]
    );
}

#[test]
fn alpha_bytes_are_written_in_place() {
    let mut data = vec![9; 16];
    write_alpha(&mut data, 8, 2, 2, 3, &vec![1, 2, 3, 4], false);
    assert_eq!(data, vec![9, 9, 9, 1, 9, 9, 9, 2, 9, 9, 9, 3, 9, 9, 9, 4]);
    write_alpha(&mut data, 8, 2, 2, 0, &vec![1, 2, 3, 255], true);
    assert_eq!(data, vec![254, 9, 9, 1, 253, 9, 9, 2, 252, 9, 9, 3, 0, 9, 9, 4]);
    assert_eq!(alpha_offset(VideoFormat::Bgra), Some(3));
    assert_eq!(alpha_offset(VideoFormat::Ayuv), Some(0));
    assert_eq!(alpha_offset(VideoFormat::Rgbx), None);
}

#[test]
fn masking_a_frame_writes_its_alpha() {
    let mut state: State<()> = State::default();
    let settings = segmaskalpha::Settings::default();
    assert!(!settings.invert);
    assert_eq!(settings.feather, 0);
    let list = Some(vec![segmentation(0, 0, 2, 2, 1)]);
    let mut data = vec![9; 16];
    let written = mask_frame(
        &mut state,
        &settings,
        VideoFormat::Rgba,
        &list,
        &mut data,
        8,
        2,
        2,
        &nearest,
    );
    assert_eq!(written, Ok(true));
    assert_eq!(data, vec![9, 9, 9, 255, 9, 9, 9, 255, 9, 9, 9, 0, 9, 9, 9, 255]);

    let untouched = data.clone();
    let none = mask_frame(
        &mut state,
        &settings,
        VideoFormat::Rgba,
        &None,
        &mut data,
        8,
        2,
        2,
        &nearest,
    );
    assert_eq!(none, Ok(false));
    let opaque = mask_frame(
        &mut state,
        &settings,
        VideoFormat::Rgbx,
        &list,
        &mut data,
        8,
        2,
        2,
        &nearest,
    );
    assert_eq!(opaque, Err(()));
    assert_eq!(data, untouched);
}

#[test]
fn the_many_to_many_relation_names_the_types_first() {
    let names = |list: &[&str]| list.iter().map(|name| name.to_string()).collect::<Vec<String>>();
    let many = vec![names(&["cat", "dog"]), names(&["bird"])];
    let single = vec![names(&["fish"])];
    assert_eq!(related_classification(many.clone(), single.clone()), Some(names(&["cat", "dog"])));
    assert_eq!(related_classification(vec![], single), Some(names(&["fish"])));
    assert_eq!(related_classification(vec![], vec![]), None);
    // A classification that names nothing is still the first one.
    assert_eq!(related_classification(vec![vec![]], many), Some(vec![]));
}
