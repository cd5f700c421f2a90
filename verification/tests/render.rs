use gstoverlays::geometry::Rect;
use gstoverlays::packed::{
    canvas_format, draw_packed_circle, draw_packed_rectangle, draw_packed_text,
    packed_pixel_layout, render_packed, render_path, CanvasFormat, Disc, PackedSurface, PixelBox,
    RenderPath, VideoFormat,
};
use gstoverlays::render::{
    append_commands, clone_commands, content_bounds, AnalyticsFrame, DrawCommand,
    RenderBackendKind, RenderContext, LABEL_LAYOUT_HEIGHT,
};
use gstoverlays::scalar::Scalar;

fn scalar(v: f32) -> Scalar {
    Scalar::from_bits(v.to_bits())
}

fn float(v: Scalar) -> f32 {
    f32::from_bits(v.bits)
}

fn pixel_at(data: &[u8], stride: usize, x: usize, y: usize) -> [u8; 4] {
    let offset = y * stride + x * 4;
    data[offset..offset + 4].try_into().unwrap()
}

fn surface(width: usize, height: usize, format: VideoFormat) -> PackedSurface {
    PackedSurface {
        data: vec![0_u8; width * height * 4],
        stride: width * 4,
        width,
        height,
        layout: packed_pixel_layout(format).unwrap(),
    }
}

fn edges(x: f32, y: f32, width: f32, height: f32) -> PixelBox {
    PixelBox {
        left: x.floor().max(0.0) as usize,
        top: y.floor().max(0.0) as usize,
        right: (x + width).ceil().max(0.0) as usize,
        bottom: (y + height).ceil().max(0.0) as usize,
    }
}

fn disc(cx: f32, cy: f32, radius: f32, width: usize, height: usize) -> Disc {
    let radius = radius.max(0.5);
    Disc {
        left: (cx - radius).floor().max(0.0) as i32,
        top: (cy - radius).floor().max(0.0) as i32,
        right: (cx + radius).ceil().min((width - 1) as f32).max(0.0) as i32,
        bottom: (cy + radius).ceil().min((height - 1) as f32).max(0.0) as i32,
        cx: scalar(cx),
        cy: scalar(cy),
        radius: scalar(radius),
    }
}

fn inside(disc: &Disc, x: i32, y: i32) -> bool {
    let dx = x as f32 + 0.5 - float(disc.cx);
    let dy = y as f32 + 0.5 - float(disc.cy);
    dx * dx + dy * dy <= float(disc.radius) * float(disc.radius)
}

fn draw_all(surface: &mut PackedSurface, commands: Vec<DrawCommand>) {
    let (w, h) = (surface.width, surface.height);
    let edges = |command: &DrawCommand| match command {
        DrawCommand::Rectangle { x, y, width, height, .. } => {
            edges(float(*x), float(*y), float(*width), float(*height))
        }
        _ => PixelBox { left: 0, top: 0, right: 0, bottom: 0 },
    };
    let trace = move |command: &DrawCommand| match command {
        DrawCommand::Circle { cx, cy, radius, .. } => {
            vec![disc(float(*cx), float(*cy), float(*radius), w, h)]
        }
        DrawCommand::Line { x0, y0, x1, y1, width, .. } => {
            let (x0, y0) = (float(*x0), float(*y0));
            let dx = float(*x1) - x0;
            let dy = float(*y1) - y0;
            let steps = dx.abs().max(dy.abs()).ceil().max(1.0) as usize;
            let radius = (float(*width).max(1.0) / 2.0).max(0.5);
            (0..=steps)
                .map(|step| {
                    let t = step as f32 / steps as f32;
                    disc(x0 + dx * t, y0 + dy * t, radius, w, h)
                })
                .collect()
        }
        _ => Vec::new(),
    };
    let lift = |command: &DrawCommand| match command {
        DrawCommand::TextCentered { y, .. } => (float(*y) - 5.0).floor() as i32,
        _ => 0,
    };
    render_packed(surface, &commands, &edges, &trace, &inside, &lift);
}

#[test]
fn render_context_defaults_to_skia_backend() {
    let context = RenderContext::default();
    assert_eq!(context.backend_kind(), RenderBackendKind::Skia);
    assert_eq!(
        RenderContext::new(RenderBackendKind::Skia).backend_kind(),
        RenderBackendKind::default()
    );
}

#[test]
fn content_bounds_covers_solid_commands_and_skips_strokes() {
    // Rectangle: axis-aligned extent.
    assert_eq!(
        content_bounds(
            &DrawCommand::Rectangle {
                x: scalar(10.0),
                y: scalar(20.0),
                width: scalar(40.0),
                height: scalar(30.0),
                rotation: scalar(0.0),
                argb: 0,
                filled: false,
            },
            0
        ),
        Some(Rect::from_xywh(10, 20, 40, 30))
    );

    // Circle: bounding box around the centre.
    assert_eq!(
        content_bounds(
            &DrawCommand::Circle {
                cx: scalar(50.0),
                cy: scalar(60.0),
                radius: scalar(3.0),
                argb: 0,
            },
            0
        ),
        Some(Rect::from_xywh(47, 57, 7, 7))
    );

    // Left-aligned label: anchored bottom-left, so the rect sits above y.
    let text = DrawCommand::Text {
        x: scalar(12.0),
        y: scalar(24.0),
        text: "hi".to_string(),
        argb: 0,
    };
    let bounds = content_bounds(&text, 11).expect("text has bounds");
    assert_eq!((bounds.left, bounds.bottom), (12, 24));
    assert_eq!(bounds.height(), LABEL_LAYOUT_HEIGHT);
    assert!(bounds.width() > 0);

    // Thin strokes and no-ops are not claimed.
    assert_eq!(
        content_bounds(
            &DrawCommand::Line {
                x0: scalar(0.0),
                y0: scalar(0.0),
                x1: scalar(9.0),
                y1: scalar(9.0),
                argb: 0,
                width: scalar(1.0),
            },
            0
        ),
        None
    );
    assert_eq!(content_bounds(&DrawCommand::NoOp, 0), None);
}

#[test]
fn fractional_bounds_grow_to_whole_pixels() {
    assert_eq!(
        content_bounds(
            &DrawCommand::Rectangle {
                x: scalar(-1.5),
                y: scalar(2.25),
                width: scalar(3.5),
                height: scalar(0.5),
                rotation: scalar(1.0),
                argb: 0,
                filled: true,
            },
            0
        ),
        Some(Rect::from_xywh(-2, 2, 4, 1))
    );
    assert_eq!(
        content_bounds(
            &DrawCommand::TextCentered {
                x: scalar(20.9),
                y: scalar(30.0),
                text: "x".to_string(),
                argb: 0,
            },
            9
        ),
        Some(Rect::from_xywh(16, 24, 9, 12))
    );
}

#[test]
fn analytics_frame_defaults_to_empty() {
    let frame = AnalyticsFrame::default();

    assert_eq!(frame.object_count, 0);
    assert_eq!(frame.segment_count, 0);
    assert_eq!(frame.keypoint_count, 0);
    assert_eq!(frame.semantic_tag, None);
}

#[test]
fn draw_command_variants_are_constructible() {
    let commands = [
        DrawCommand::NoOp,
        DrawCommand::Rectangle {
            x: scalar(1.0),
            y: scalar(2.0),
            width: scalar(10.0),
            height: scalar(20.0),
            rotation: scalar(0.0),
            argb: 0xFFFF_FFFF,
            filled: false,
        },
        DrawCommand::Circle {
            cx: scalar(3.0),
            cy: scalar(4.0),
            radius: scalar(5.0),
            argb: 0xFFFF_0000,
        },
        DrawCommand::Line {
            x0: scalar(0.0),
            y0: scalar(0.0),
            x1: scalar(10.0),
            y1: scalar(10.0),
            argb: 0xFF00_FF00,
            width: scalar(2.0),
        },
        DrawCommand::Text {
            x: scalar(8.0),
            y: scalar(9.0),
            text: "hello".to_string(),
            argb: 0xFFFF_FFFF,
        },
    ];

    assert_eq!(commands.len(), 5);
}

#[test]
fn commands_are_copied_and_appended() {
    let first = vec![DrawCommand::NoOp];
    let mut copy = clone_commands(&first);
    assert_eq!(copy, first);
    append_commands(&mut copy, &first);
    assert_eq!(copy, vec![DrawCommand::NoOp, DrawCommand::NoOp]);
}

#[test]
fn packed_rectangle_draws_outline_on_bgra_buffer() {
    let mut surface = surface(4, 4, VideoFormat::Bgra);
    let edge = edges(1.0, 1.0, 2.0, 2.0);

    draw_packed_rectangle(
        &mut surface,
        edge.left,
        edge.top,
        edge.right,
        edge.bottom,
        0xFF11_2233,
        false,
    );

    let pixels = &surface.data;
    assert_eq!(pixel_at(pixels, 16, 0, 0), [0, 0, 0, 0]);
    assert_eq!(pixel_at(pixels, 16, 1, 1), [0x33, 0x22, 0x11, 0xFF]);
    assert_eq!(pixel_at(pixels, 16, 2, 1), [0x33, 0x22, 0x11, 0xFF]);
    assert_eq!(pixel_at(pixels, 16, 1, 2), [0x33, 0x22, 0x11, 0xFF]);
    assert_eq!(pixel_at(pixels, 16, 2, 2), [0x33, 0x22, 0x11, 0xFF]);
    assert_eq!(pixel_at(pixels, 16, 3, 3), [0, 0, 0, 0]);
}

#[test]
fn packed_filled_rectangle_clips_to_frame_bounds() {
    let mut surface = surface(3, 3, VideoFormat::Rgba);
    let edge = edges(-1.0, -1.0, 3.0, 3.0);

    draw_packed_rectangle(
        &mut surface,
        edge.left,
        edge.top,
        edge.right,
        edge.bottom,
        0x8044_5566,
        true,
    );

    let pixels = &surface.data;
    assert_eq!(pixel_at(pixels, 12, 0, 0), [0x44, 0x55, 0x66, 0x80]);
    assert_eq!(pixel_at(pixels, 12, 1, 1), [0x44, 0x55, 0x66, 0x80]);
    assert_eq!(pixel_at(pixels, 12, 2, 2), [0, 0, 0, 0]);
}

#[test]
fn packed_text_draws_pixels_on_bgra_buffer() {
    let mut surface = surface(32, 16, VideoFormat::Bgra);

    draw_packed_text(&mut surface, 2, 2, "0.8", 0xFFAA_BBCC);

    assert!(surface.data.chunks_exact(4).any(|px| px != [0, 0, 0, 0]));
    // A hollow box of 6x10 pixels per character, 8 pixels apart.
    assert_eq!(pixel_at(&surface.data, 128, 2, 2), [0xCC, 0xBB, 0xAA, 0xFF]);
    assert_eq!(pixel_at(&surface.data, 128, 7, 11), [0xCC, 0xBB, 0xAA, 0xFF]);
    assert_eq!(pixel_at(&surface.data, 128, 3, 3), [0, 0, 0, 0]);
    assert_eq!(pixel_at(&surface.data, 128, 8, 2), [0, 0, 0, 0]);
    assert_eq!(pixel_at(&surface.data, 128, 18, 2), [0xCC, 0xBB, 0xAA, 0xFF]);
    assert_eq!(pixel_at(&surface.data, 128, 26, 2), [0, 0, 0, 0]);
}

#[test]
fn packed_text_clips_without_panicking() {
    let mut surface = surface(8, 8, VideoFormat::Rgba);

    draw_packed_text(&mut surface, -4, -3, "99", 0xFF11_2233);

    assert!(surface.data.chunks_exact(4).any(|px| px != [0, 0, 0, 0]));
}

#[test]
fn packed_text_centered_draws_pixels_on_bgra_buffer() {
    let mut surface = surface(32, 16, VideoFormat::Bgra);

    draw_all(
        &mut surface,
        vec![DrawCommand::TextCentered {
            x: scalar(8.0),
            y: scalar(8.0),
            text: "0.9".to_string(),
            argb: 0xFFAA_BBCC,
        }],
    );

    assert!(surface.data.chunks_exact(4).any(|px| px != [0, 0, 0, 0]));
    // The box is 10 pixels tall, so it starts 5 pixels above the given y.
    assert_ne!(pixel_at(&surface.data, 128, 8, 3), [0, 0, 0, 0]);
    assert_eq!(pixel_at(&surface.data, 128, 8, 2), [0, 0, 0, 0]);
}

#[test]
fn packed_circle_draws_pixels_on_bgra_buffer() {
    let mut surface = surface(16, 16, VideoFormat::Bgra);
    let disc = disc(8.0, 8.0, 3.0, 16, 16);

    draw_packed_circle(
        &mut surface,
        disc.left,
        disc.top,
        disc.right,
        disc.bottom,
        |x: i32, y: i32| inside(&disc, x, y),
        0xFF11_2233,
    );

    assert_ne!(pixel_at(&surface.data, 16 * 4, 8, 8), [0, 0, 0, 0]);
    assert_eq!(pixel_at(&surface.data, 16 * 4, 5, 5), [0, 0, 0, 0]);
}

#[test]
fn packed_line_draws_pixels_on_bgra_buffer() {
    let mut surface = surface(32, 16, VideoFormat::Bgra);

    draw_all(
        &mut surface,
        vec![DrawCommand::Line {
            x0: scalar(2.0),
            y0: scalar(2.0),
            x1: scalar(20.0),
            y1: scalar(2.0),
            argb: 0xFFAA_BBCC,
            width: scalar(2.0),
        }],
    );

    assert_ne!(pixel_at(&surface.data, 32 * 4, 10, 2), [0, 0, 0, 0]);
}

#[test]
fn commands_are_drawn_over_each_other_in_sequence() {
    let mut surface = surface(8, 8, VideoFormat::Xrgb);
    let rectangle = |argb: u32, filled: bool| DrawCommand::Rectangle {
        x: scalar(1.0),
        y: scalar(1.0),
        width: scalar(4.0),
        height: scalar(4.0),
        rotation: scalar(0.0),
        argb,
        filled,
    };
    draw_all(
        &mut surface,
        vec![
            rectangle(0xFF01_0203, true),
            DrawCommand::NoOp,
            rectangle(0xFF0A_0B0C, false),
            DrawCommand::Circle {
                cx: scalar(3.0),
                cy: scalar(3.0),
                radius: scalar(0.1),
                argb: 0xFFEE_EEEE,
            },
            DrawCommand::Text {
                x: scalar(7.0),
                y: scalar(7.0),
                text: "a".to_string(),
                argb: 0xFF77_7777,
            },
        ],
    );
    // The padding byte of an xRGB pixel stays as it was.
    assert_eq!(pixel_at(&surface.data, 32, 1, 1), [0, 0x0A, 0x0B, 0x0C]);
    assert_eq!(pixel_at(&surface.data, 32, 2, 2), [0, 0x01, 0x02, 0x03]);
    assert_eq!(pixel_at(&surface.data, 32, 4, 4), [0, 0x0A, 0x0B, 0x0C]);
    assert_eq!(pixel_at(&surface.data, 32, 7, 7), [0, 0x77, 0x77, 0x77]);
    assert_eq!(pixel_at(&surface.data, 32, 6, 6), [0, 0, 0, 0]);
}

#[test]
fn formats_choose_the_render_path() {
    assert_eq!(canvas_format(VideoFormat::Bgrx), Some(CanvasFormat::Bgra8888));
    assert_eq!(canvas_format(VideoFormat::Argb), None);
    assert!(packed_pixel_layout(VideoFormat::Other).is_none());
    assert_eq!(
        render_path(VideoFormat::Rgba),
        RenderPath::Canvas(CanvasFormat::Rgba8888)
    );
    assert_eq!(
        render_path(VideoFormat::Abgr),
        RenderPath::Packed(packed_pixel_layout(VideoFormat::Abgr).unwrap())
    );
    assert_eq!(render_path(VideoFormat::Other), RenderPath::Skip);
}

#[test]
fn scalars_round_like_floats() {
    for v in [0.0f32, -0.0, 0.5, -0.5, 1.5, -1.5, 123456.75, -7.999, 3.0e9, -3.0e9, 1.0e-40] {
        assert_eq!(scalar(v).floor_to_i32(), v.floor() as i32);
        assert_eq!(scalar(v).ceil_to_i32(), v.ceil() as i32);
        assert_eq!(scalar(v).trunc_to_i32(), v as i32);
    }
    assert_eq!(scalar(f32::NAN).floor_to_i32(), 0);
    assert_eq!(scalar(f32::INFINITY).ceil_to_i32(), i32::MAX);
    assert_eq!(scalar(f32::NEG_INFINITY).trunc_to_i32(), i32::MIN);
    for i in [0i32, 1, -1, 5, 16_777_216, 16_777_217, i32::MAX, i32::MIN, -123_456_789] {
        assert_eq!(Scalar::from_i32(i), scalar(i as f32));
    }
}

#[test]
fn scalars_compare_like_floats() {
    let values = [
        f32::NEG_INFINITY,
        -2.0,
        -1.0e-41,
        -0.0,
        0.0,
        1.0e-41,
        0.25,
        7.0,
        f32::INFINITY,
        f32::NAN,
    ];
    for a in values {
        for b in values {
            assert_eq!(scalar(a).less_than(scalar(b)), a < b);
            assert_eq!(scalar(a).reaches(scalar(b)), a >= b);
            assert_eq!(
                scalar(a).total_key() < scalar(b).total_key(),
                a.total_cmp(&b).is_lt()
            );
        }
        assert_eq!(scalar(a).not_a_number(), a.is_nan());
        assert_eq!(scalar(a).finite(), a.is_finite());
    }
}

#[test]
fn bounds_hold_rectangles_that_start_inside_a_pixel() {
    let bounds = |x: f32, y: f32, width: f32, height: f32| {
        content_bounds(
            &DrawCommand::Rectangle {
                x: scalar(x),
                y: scalar(y),
                width: scalar(width),
                height: scalar(height),
                rotation: scalar(0.0),
                argb: 0,
                filled: true,
            },
            0,
        )
        .unwrap()
    };
    assert_eq!(bounds(0.5, 0.0, 1.0, 1.0), Rect::from_xywh(0, 0, 2, 1));
    // The rounded-up width already reaches the end.
    assert_eq!(bounds(0.5, 0.75, 0.25, 0.25), Rect::from_xywh(0, 0, 1, 1));
    assert_eq!(bounds(0.5, -0.5, -0.5, 0.5), Rect::from_xywh(0, -1, 0, 1));
    assert_eq!(bounds(0.5, -0.25, -1.5, 0.5), Rect::from_xywh(0, -1, -1, 2));
    for x in [-2.75_f32, -0.5, 0.0, 0.25, 0.5, 7.875] {
        for length in [0.0_f32, 0.125, 1.0, 2.5, 9.0] {
            let r = bounds(x, x, length, length);
            assert!(r.left as f32 <= x && x + length <= r.right as f32);
            assert!(r.top as f32 <= x && x + length <= r.bottom as f32);
            assert_eq!(r.right, (x + length).ceil() as i32);
        }
    }
    // Beyond the range of the coordinates they end at its ends.
    assert_eq!(bounds(3.0e9, 0.0, 1.0, 1.0).right, i32::MAX);
    assert_eq!(bounds(f32::NAN, 0.0, 1.0, 1.0), Rect::from_xywh(0, 0, 1, 1));
}

#[test]
fn bounds_hold_circles() {
    for cx in [0.0_f32, 0.5, 3.75, 20.0] {
        for radius in [0.5_f32, 1.0, 2.25] {
            let circle = DrawCommand::Circle {
                cx: scalar(cx),
                cy: scalar(9.0),
                radius: scalar(radius),
                argb: 0,
            };
            let r = content_bounds(&circle, 0).unwrap();
            assert!(r.left as f32 <= cx - radius && cx + radius <= r.right as f32);
        }
    }
}

#[test]
fn the_end_of_a_rectangle_is_rounded_up_exactly() {
    let span = |x: f32, width: f32| {
        content_bounds(
            &DrawCommand::Rectangle {
                x: scalar(x),
                y: scalar(0.0),
                width: scalar(width),
                height: scalar(1.0),
                rotation: scalar(0.0),
                argb: 0,
                filled: true,
            },
            0,
        )
        .unwrap()
        .width()
    };
    // Sums that single precision rounds to a whole number.
    let tiny = f32::from_bits(1);
    assert_eq!(span(0.5, 0.5), 1);
    assert_eq!(span(0.5, 0.5 + f32::EPSILON), 2);
    assert_eq!(span(0.5, 0.5 - f32::EPSILON), 1);
    assert_eq!(span(tiny, 1.0), 2);
    assert_eq!(span(0.5 - f32::EPSILON, 0.5), 1);
    assert_eq!(span(1.0 - f32::EPSILON, tiny), 1);
    assert_eq!(span(-tiny, 1.0), 2);
    assert_eq!(span(-tiny, tiny), 1);
    assert_eq!(span(-tiny, 2.0 * tiny), 2);
    assert_eq!(span(tiny, -tiny), 0);
    assert_eq!(span(2.0 * tiny, -tiny), 1);
    assert_eq!(span(-0.25, -0.5), 1);
    assert_eq!(span(-0.25, -0.75), 0);
    assert_eq!(span(1.5, 3.0e9), i32::MAX - 1);
}
