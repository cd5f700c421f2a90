//! Draw commands, the frame area they occupy, and the choice of a render path.

use vstd::prelude::*;

use crate::geometry::{halved, saturating_difference, saturating_sum, Rect};
use crate::scalar::Scalar;

verus! {

/// Height reserved for a line of label text.
pub const LABEL_LAYOUT_HEIGHT: i32 = 12;

/// Gap between a label and the feature it belongs to.
pub const LABEL_LAYOUT_GAP: i32 = 2;

/// Width of the leader line drawn from a feature to a displaced label.
pub open spec fn leader_line_width() -> Scalar {
    Scalar::of_int(1)
}

#[derive(Debug, Clone, Copy, PartialEq, Eq, Structural)]
pub enum RenderBackendKind {
    Skia,
}

impl Default for RenderBackendKind {
    fn default() -> (r: Self)
        ensures
            r == RenderBackendKind::Skia,
    {
        RenderBackendKind::Skia
    }
}

/// What a frame's analytics hold, by number.
#[derive(Debug)]
pub struct AnalyticsFrame {
    pub object_count: usize,
    pub segment_count: usize,
    pub keypoint_count: usize,
    pub semantic_tag: Option<String>,
}

impl Default for AnalyticsFrame {
    fn default() -> (r: Self)
        ensures
            r.object_count == 0,
            r.segment_count == 0,
            r.keypoint_count == 0,
            r.semantic_tag is None,
    {
        AnalyticsFrame { object_count: 0, segment_count: 0, keypoint_count: 0, semantic_tag: None }
    }
}

impl Clone for AnalyticsFrame {
    fn clone(&self) -> (r: Self)
        ensures
            r == *self,
    {
        AnalyticsFrame {
            object_count: self.object_count,
            segment_count: self.segment_count,
            keypoint_count: self.keypoint_count,
            semantic_tag: match &self.semantic_tag {
                Some(tag) => Some(tag.clone()),
                None => None,
            },
        }
    }
}

/// One drawing step. Commands are drawn in sequence, later ones over earlier ones.
#[derive(Debug, PartialEq)]
pub enum DrawCommand {
    NoOp,
    Rectangle {
        x: Scalar,
        y: Scalar,
        width: Scalar,
        height: Scalar,
        rotation: Scalar,
        argb: u32,
        filled: bool,
    },
    Circle { cx: Scalar, cy: Scalar, radius: Scalar, argb: u32 },
    Line { x0: Scalar, y0: Scalar, x1: Scalar, y1: Scalar, argb: u32, width: Scalar },
    Text { x: Scalar, y: Scalar, text: String, argb: u32 },
    TextCentered { x: Scalar, y: Scalar, text: String, argb: u32 },
}

impl Clone for DrawCommand {
    fn clone(&self) -> (r: Self)
        ensures
            r == *self,
    {
        match self {
            DrawCommand::NoOp => DrawCommand::NoOp,
            DrawCommand::Rectangle { x, y, width, height, rotation, argb, filled } => {
                DrawCommand::Rectangle {
                    x: *x,
                    y: *y,
                    width: *width,
                    height: *height,
                    rotation: *rotation,
                    argb: *argb,
                    filled: *filled,
                }
            },
            DrawCommand::Circle { cx, cy, radius, argb } => DrawCommand::Circle {
                cx: *cx,
                cy: *cy,
                radius: *radius,
                argb: *argb,
            },
            DrawCommand::Line { x0, y0, x1, y1, argb, width } => DrawCommand::Line {
                x0: *x0,
                y0: *y0,
                x1: *x1,
                y1: *y1,
                argb: *argb,
                width: *width,
            },
            DrawCommand::Text { x, y, text, argb } => DrawCommand::Text {
                x: *x,
                y: *y,
                text: text.clone(),
                argb: *argb,
            },
            DrawCommand::TextCentered { x, y, text, argb } => DrawCommand::TextCentered {
                x: *x,
                y: *y,
                text: text.clone(),
                argb: *argb,
            },
        }
    }
}

/// A copy of `commands`.
pub fn clone_commands(commands: &Vec<DrawCommand>) -> (r: Vec<DrawCommand>)
    ensures
        r@ == commands@,
{
    let mut copy: Vec<DrawCommand> = Vec::new();
    append_commands(&mut copy, commands);
    assert(copy@ =~= commands@);
    copy
}

/// Put copies of `more` behind `commands`.
pub fn append_commands(commands: &mut Vec<DrawCommand>, more: &Vec<DrawCommand>)
    ensures
        final(commands)@ == old(commands)@ + more@,
{
    let mut i: usize = 0;
    while i < more.len()
        invariant
            i <= more.len(),
            commands@ == old(commands)@ + more@.take(i as int),
        decreases more.len() - i,
    {
        commands.push(more[i].clone());
        assert(more@.take(i + 1) =~= more@.take(i as int).push(more@[i as int]));
        i = i + 1;
    }
    assert(more@.take(i as int) =~= more@);
}

/// The rounded-up end of a stretch that starts and is as long as the finite values say.
pub open spec fn end_of(start: Scalar, length: Scalar) -> int {
    -((-(start.units() + length.units())) / crate::scalar::units_of_one())
}

/// The pixels of a stretch lie within the range of `i32`: its start, rounded down, and its
/// length, rounded up, are finite and were not clamped.
pub open spec fn within_range(start: Scalar, length: Scalar) -> bool {
    &&& start.is_finite()
    &&& length.is_finite()
    &&& i32::MIN < start.as_i32(start.floor()) < i32::MAX
    &&& i32::MIN < length.as_i32(length.ceil()) < i32::MAX
}

/// How many pixels a stretch takes, counted from the one that holds its start: up to its
/// rounded-up end. Beyond the range of the coordinates it is the rounded-up length.
pub open spec fn spanned(start: Scalar, length: Scalar) -> int {
    if within_range(start, length) {
        end_of(start, length) - start.floor()
    } else {
        length.as_i32(length.ceil())
    }
}

/// The rounded-up end lies at the rounded-down start plus the rounded-up length, or one
/// behind that.
proof fn lemma_end_of(start: Scalar, length: Scalar)
    requires
        start.is_finite(),
        length.is_finite(),
    ensures
        ({
            let n = start.floor() + length.ceil();
            let sum = start.units() + length.units();
            let one = crate::scalar::units_of_one();
            &&& end_of(start, length) == if sum > n * one {
                n + 1
            } else {
                n
            }
            &&& (end_of(start, length) - 1) * one < sum <= end_of(start, length) * one
        }),
{
    let one = crate::scalar::units_of_one();
    let n = start.floor() + length.ceil();
    let sum = start.units() + length.units();
    vstd::arithmetic::power2::lemma_pow2_pos(149);
    crate::scalar::law_values_lie_between_floor_and_ceil(start);
    crate::scalar::law_values_lie_between_floor_and_ceil(length);
    crate::scalar::lemma_values_lie_close_below_their_ceil(length);
    assert(n * one == start.floor() * one + length.ceil() * one) by (nonlinear_arith)
        requires
            n == start.floor() + length.ceil(),
    ;
    assert((start.floor() + 1) * one == start.floor() * one + one) by (nonlinear_arith);
    assert((length.ceil() - 1) * one == length.ceil() * one - one) by (nonlinear_arith);
    assert((n + 1) * one == n * one + one) by (nonlinear_arith);
    assert((n - 1) * one == n * one - one) by (nonlinear_arith);
    if sum > n * one {
        let r = (n + 1) * one - sum;
        assert(-sum == one * (-(n + 1)) + r) by (nonlinear_arith)
            requires
                r == (n + 1) * one - sum,
        ;
        vstd::arithmetic::div_mod::lemma_fundamental_div_mod_converse(-sum, one, -(n + 1), r);
    } else {
        let r = n * one - sum;
        assert(-sum == one * (-n) + r) by (nonlinear_arith)
            requires
                r == n * one - sum,
        ;
        vstd::arithmetic::div_mod::lemma_fundamental_div_mod_converse(-sum, one, -n, r);
    }
}

/// A stretch that starts between two pixels takes as many as its rounded-up length says.
proof fn lemma_whole_start(start: Scalar, length: Scalar)
    requires
        start.is_finite(),
        length.is_finite(),
        start.ceil() == start.floor(),
    ensures
        spanned(start, length) == length.as_i32(length.ceil()),
{
    let one = crate::scalar::units_of_one();
    lemma_end_of(start, length);
    crate::scalar::law_values_lie_between_floor_and_ceil(start);
    crate::scalar::law_values_lie_between_floor_and_ceil(length);
    assert((start.floor() + length.ceil()) * one == start.floor() * one + length.ceil() * one)
        by (nonlinear_arith);
}

/// How many pixels a stretch takes, counted from the one that holds its start.
fn pixels_spanned(start: Scalar, length: Scalar) -> (r: i32)
    ensures
        r == spanned(start, length),
{
    let low: i32 = start.floor_to_i32();
    let span: i32 = length.ceil_to_i32();
    if start.finite() && length.finite() && i32::MIN < low && low < i32::MAX && i32::MIN < span
        && span < i32::MAX {
        proof {
            lemma_end_of(start, length);
        }
        if start.reaches_beyond(length) {
            return span + 1;
        }
    }
    span
}

impl DrawCommand {
    /// The axis-aligned extent of a command's solid content; `text_width` is the
    /// measured width of its text.
    pub open spec fn extent(self, text_width: int) -> Option<Rect> {
        match self {
            DrawCommand::Rectangle { x, y, width, height, .. } => Some(
                Rect::of(
                    x.as_i32(x.floor()),
                    y.as_i32(y.floor()),
                    spanned(x, width),
                    spanned(y, height),
                ),
            ),
            DrawCommand::Circle { cx, cy, radius, .. } => {
                let r = radius.as_i32(radius.ceil());
                let side = crate::geometry::saturated(crate::geometry::saturated(2 * r) + 1) as int;
                Some(Rect::of(cx.as_i32(cx.trunc()) - r, cy.as_i32(cy.trunc()) - r, side, side))
            },
            DrawCommand::Text { x, y, .. } => Some(
                Rect::of(
                    x.as_i32(x.trunc()),
                    y.as_i32(y.trunc()) - LABEL_LAYOUT_HEIGHT,
                    text_width,
                    LABEL_LAYOUT_HEIGHT as int,
                ),
            ),
            DrawCommand::TextCentered { x, y, .. } => Some(
                Rect::of(
                    x.as_i32(x.trunc()) - crate::geometry::half(text_width),
                    y.as_i32(y.trunc()) - LABEL_LAYOUT_HEIGHT / 2,
                    text_width,
                    LABEL_LAYOUT_HEIGHT as int,
                ),
            ),
            DrawCommand::Line { .. } => None,
            DrawCommand::NoOp => None,
        }
    }

    /// The corner of a text's extent fits in the coordinate range.
    pub open spec fn text_in_range(self, text_width: int) -> bool {
        match self {
            DrawCommand::Text { y, .. } => y.as_i32(y.trunc()) - LABEL_LAYOUT_HEIGHT >= i32::MIN,
            DrawCommand::TextCentered { x, y, .. } => {
                &&& i32::MIN <= x.as_i32(x.trunc()) - crate::geometry::half(text_width) <= i32::MAX
                &&& y.as_i32(y.trunc()) - LABEL_LAYOUT_HEIGHT / 2 >= i32::MIN
            },
            _ => true,
        }
    }
}

/// Bounding box of a command's visible, "solid" content, used to publish claimed
/// regions for cross-element coordination. Thin strokes (skeleton and leader
/// lines) and no-ops return `None`. Box rotation is ignored: the axis-aligned
/// extent is claimed. `text_width` is the measured width of the command's text; it is
/// not read for a command without text.
pub fn content_bounds(command: &DrawCommand, text_width: i32) -> (r: Option<Rect>)
    requires
        command.text_in_range(text_width as int),
    ensures
        r == command.extent(text_width as int),
        r matches Some(rect) ==> rect.measurable(),
{
    match command {
        DrawCommand::Rectangle { x, y, width, height, .. } => Some(
            Rect::from_xywh(
                x.floor_to_i32(),
                y.floor_to_i32(),
                pixels_spanned(*x, *width),
                pixels_spanned(*y, *height),
            ),
        ),
        DrawCommand::Circle { cx, cy, radius, .. } => {
            let r: i32 = radius.ceil_to_i32();
            let side: i32 = saturating_sum(saturating_sum(r, r), 1);
            Some(
                Rect::from_xywh(
                    saturating_difference(cx.trunc_to_i32(), r),
                    saturating_difference(cy.trunc_to_i32(), r),
                    side,
                    side,
                ),
            )
        },
        DrawCommand::Text { x, y, .. } => Some(
            Rect::from_xywh(
                x.trunc_to_i32(),
                y.trunc_to_i32() - LABEL_LAYOUT_HEIGHT,
                text_width,
                LABEL_LAYOUT_HEIGHT,
            ),
        ),
        DrawCommand::TextCentered { x, y, .. } => Some(
            Rect::from_xywh(
                x.trunc_to_i32() - halved(text_width),
                y.trunc_to_i32() - LABEL_LAYOUT_HEIGHT / 2,
                text_width,
                LABEL_LAYOUT_HEIGHT,
            ),
        ),
        DrawCommand::Line { .. } => None,
        DrawCommand::NoOp => None,
    }
}

/// A rectangle drawn at whole coordinates of at most 24 bits is claimed exactly.
pub proof fn law_whole_rectangles_are_claimed_exactly(
    x: int,
    y: int,
    width: int,
    height: int,
    rotation: Scalar,
    argb: u32,
    filled: bool,
    text_width: int,
)
    requires
        -0x100_0000 <= x <= 0x100_0000,
        -0x100_0000 <= y <= 0x100_0000,
        -0x100_0000 <= width <= 0x100_0000,
        -0x100_0000 <= height <= 0x100_0000,
    ensures
        (DrawCommand::Rectangle {
            x: Scalar::of_int(x),
            y: Scalar::of_int(y),
            width: Scalar::of_int(width),
            height: Scalar::of_int(height),
            rotation,
            argb,
            filled,
        }).extent(text_width) == Some(Rect::of(x, y, width, height)),
{
    crate::scalar::law_small_integers_are_exact(x);
    crate::scalar::law_small_integers_are_exact(y);
    crate::scalar::law_small_integers_are_exact(width);
    crate::scalar::law_small_integers_are_exact(height);
    lemma_whole_start(Scalar::of_int(x), Scalar::of_int(width));
    lemma_whole_start(Scalar::of_int(y), Scalar::of_int(height));
}

/// A stretch, from its start to its end, lies in the pixels from `low` to `high`, and in no
/// fewer. Values are compared as multiples of the smallest positive one.
pub open spec fn bounds_stretch(low: int, high: int, start: Scalar, length: Scalar) -> bool {
    let one = crate::scalar::units_of_one();
    &&& low * one <= start.units() < (low + 1) * one
    &&& (high - 1) * one < start.units() + length.units() <= high * one
}

/// The pixels of a stretch that does not end before it starts fit in the coordinate range.
pub open spec fn stretch_in_range(start: Scalar, length: Scalar) -> bool {
    &&& within_range(start, length)
    &&& 0 <= length.floor()
    &&& start.floor() + length.ceil() < i32::MAX
}

/// The bounding box of a rectangle that is not rotated holds all of it, from edge to edge,
/// also where its edges lie inside pixels, and is the smallest box of pixels that does.
pub proof fn law_rectangles_lie_in_their_bounds(
    x: Scalar,
    y: Scalar,
    width: Scalar,
    height: Scalar,
    rotation: Scalar,
    argb: u32,
    filled: bool,
    text_width: int,
)
    requires
        stretch_in_range(x, width),
        stretch_in_range(y, height),
    ensures
        (DrawCommand::Rectangle { x, y, width, height, rotation, argb, filled }).extent(
            text_width,
        ) matches Some(r) && {
            &&& bounds_stretch(r.left as int, r.right as int, x, width)
            &&& bounds_stretch(r.top as int, r.bottom as int, y, height)
        },
{
    lemma_end_of(x, width);
    lemma_end_of(y, height);
    crate::scalar::law_values_lie_between_floor_and_ceil(x);
    crate::scalar::law_values_lie_between_floor_and_ceil(y);
    crate::scalar::law_values_lie_between_floor_and_ceil(width);
    crate::scalar::law_values_lie_between_floor_and_ceil(height);
}

/// Where the rounded-down start plus the rounded-up length already reaches the end of a
/// stretch, its pixels end there, and else one behind.
pub proof fn law_spans_grow_only_where_needed(start: Scalar, length: Scalar)
    ensures
        spanned(start, length) == length.as_i32(length.ceil()) || (within_range(start, length)
            && spanned(start, length) == length.ceil() + 1 && start.units() + length.units() > (
        start.floor() + length.ceil()) * crate::scalar::units_of_one()),
{
    if within_range(start, length) {
        lemma_end_of(start, length);
    }
}

/// What a frame, which starts at zero, shows of a circle's width or height lies in the pixels
/// from `low` to `high`.
pub open spec fn holds_round(low: int, high: int, center: Scalar, radius: Scalar) -> bool {
    let one = crate::scalar::units_of_one();
    &&& low * one <= center.units() - radius.units() || low <= 0
    &&& center.units() + radius.units() <= high * one
}

/// The pixels that a circle takes fit in the coordinate range.
pub open spec fn round_in_range(center: Scalar, radius: Scalar) -> bool {
    &&& center.is_finite()
    &&& radius.is_finite()
    &&& 0 <= radius.floor()
    &&& 2 * radius.ceil() < i32::MAX
    &&& i32::MIN <= center.floor() - radius.ceil()
    &&& center.ceil() + radius.ceil() < i32::MAX
}

/// The bounding box of a circle holds all that a frame shows of it.
pub proof fn law_circles_lie_in_their_bounds(
    cx: Scalar,
    cy: Scalar,
    radius: Scalar,
    argb: u32,
    text_width: int,
)
    requires
        round_in_range(cx, radius),
        round_in_range(cy, radius),
    ensures
        (DrawCommand::Circle { cx, cy, radius, argb }).extent(text_width) matches Some(r) && {
            &&& holds_round(r.left as int, r.right as int, cx, radius)
            &&& holds_round(r.top as int, r.bottom as int, cy, radius)
        },
{
    lemma_round_is_held(cx, radius);
    lemma_round_is_held(cy, radius);
}

proof fn lemma_round_is_held(center: Scalar, radius: Scalar)
    requires
        round_in_range(center, radius),
    ensures
        0 <= radius.ceil(),
        radius.as_i32(radius.ceil()) == radius.ceil(),
        center.as_i32(center.trunc()) == center.trunc(),
        center.floor() <= center.trunc() <= center.ceil(),
        holds_round(
            center.trunc() - radius.ceil(),
            center.trunc() + radius.ceil() + 1,
            center,
            radius,
        ),
{
    let one = crate::scalar::units_of_one();
    let c = center.trunc();
    let r = radius.ceil();
    crate::scalar::law_values_lie_between_floor_and_ceil(center);
    crate::scalar::law_values_lie_between_floor_and_ceil(radius);
    vstd::arithmetic::power2::lemma_pow2_pos(149);
    assert((c + r + 1) * one == (c + 1) * one + r * one) by (nonlinear_arith);
    assert((center.floor() + 1) * one <= (c + 1) * one) by (nonlinear_arith)
        requires
            center.floor() <= c,
            one > 0,
    ;
    if center.negative() {
        crate::scalar::lemma_negative_values_round_up_to_zero(center);
    } else {
        assert((c - r) * one == c * one - r * one) by (nonlinear_arith);
    }
}

/// How an element renders its commands.
#[derive(Debug)]
pub struct RenderContext {
    backend_kind: RenderBackendKind,
}

impl Default for RenderContext {
    fn default() -> (r: Self)
        ensures
            r.kind() == RenderBackendKind::Skia,
    {
        RenderContext { backend_kind: RenderBackendKind::Skia }
    }
}

impl RenderContext {
    pub closed spec fn kind(self) -> RenderBackendKind {
        self.backend_kind
    }

    pub fn new(backend_kind: RenderBackendKind) -> (r: Self)
        ensures
            r.kind() == backend_kind,
    {
        RenderContext { backend_kind }
    }

    pub fn backend_kind(&self) -> (r: RenderBackendKind)
        ensures
            r == self.kind(),
    {
        self.backend_kind
    }
}

/// A text takes a line of its measured width, from its position to the right and upwards; a
/// centered text one whose middle is at its position. Lines and steps that draw nothing take
/// no space.
pub proof fn law_texts_take_a_line(
    x: int,
    y: int,
    text: String,
    argb: u32,
    text_width: int,
    x1: Scalar,
    y1: Scalar,
    width: Scalar,
)
    requires
        -0x10_0000 <= x <= 0x10_0000,
        -0x10_0000 <= y <= 0x10_0000,
        0 <= text_width <= 0x10_0000,
    ensures
        (DrawCommand::Text {
            x: Scalar::of_int(x),
            y: Scalar::of_int(y),
            text,
            argb,
        }).extent(text_width) matches Some(r) && {
            &&& r.left == x
            &&& r.right == x + text_width
            &&& r.bottom == y
            &&& r.top == y - LABEL_LAYOUT_HEIGHT
        },
        (DrawCommand::TextCentered {
            x: Scalar::of_int(x),
            y: Scalar::of_int(y),
            text,
            argb,
        }).extent(text_width) matches Some(r) && {
            &&& r.right - r.left == text_width
            &&& r.bottom - r.top == LABEL_LAYOUT_HEIGHT
            &&& 0 <= r.left + r.right - 2 * x <= 1
            &&& r.top + r.bottom == 2 * y
        },
        (DrawCommand::Line { x0: x1, y0: y1, x1, y1, argb, width }).extent(text_width) is None,
        DrawCommand::NoOp.extent(text_width) is None,
{
    crate::scalar::law_small_integers_are_exact(x);
    crate::scalar::law_small_integers_are_exact(y);
}

/// A circle around a whole position takes a square around that, as far as its rounded-up
/// radius reaches on either side.
pub proof fn law_circles_take_a_square(
    cx: int,
    cy: int,
    radius: int,
    argb: u32,
    text_width: int,
)
    requires
        -0x10_0000 <= cx <= 0x10_0000,
        -0x10_0000 <= cy <= 0x10_0000,
        0 <= radius <= 0x10_0000,
    ensures
        (DrawCommand::Circle {
            cx: Scalar::of_int(cx),
            cy: Scalar::of_int(cy),
            radius: Scalar::of_int(radius),
            argb,
        }).extent(text_width) matches Some(r) && {
            &&& r.left == cx - radius
            &&& r.top == cy - radius
            &&& r.right == cx + radius + 1
            &&& r.bottom == cy + radius + 1
        },
{
    crate::scalar::law_small_integers_are_exact(cx);
    crate::scalar::law_small_integers_are_exact(cy);
    crate::scalar::law_small_integers_are_exact(radius);
}

} // verus!
