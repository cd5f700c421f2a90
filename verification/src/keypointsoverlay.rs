//! The keypoints overlay: keypoints become markers, labels and skeletons.

use vstd::prelude::*;
use vstd::string::*;

use crate::coordination::{claimed_regions, seed_registry_from_claims, ClaimMeta};
use crate::geometry::{
    frame_has_room, halved, saturating_difference, saturating_sum, OccupiedRegionRegistry, Rect,
    RegionPriority,
};
use crate::overlay_intent::{CandidateKind, LabelIntent};
use crate::placement::{
    leader_endpoints, place_label, point_label_candidates, point_label_fits, push_leader_line,
    LabelPlacement,
};
use crate::render::{AnalyticsFrame, DrawCommand, LABEL_LAYOUT_GAP, LABEL_LAYOUT_HEIGHT};
use crate::scalar::Scalar;

verus! {

/// Owner tag this element uses when claiming/reading shared regions.
pub const OVERLAY_OWNER: &'static str = "keypointsoverlay";

pub const DEFAULT_KEYPOINT_COLOR: u32 = 0xFFFF_0000;

pub const DEFAULT_KEYPOINT_RADIUS: i32 = 3;

pub const DEFAULT_LABELS_COLOR: u32 = 0xFFFF_FFFF;

pub const DEFAULT_SKELETON_COLOR: u32 = 0xFF00_FF00;

pub const DEFAULT_SKELETON_LINE_WIDTH: i32 = 2;

/// What to draw, and how.
#[derive(Debug)]
pub struct Settings {
    pub render_enabled: bool,
    pub keypoint_color: u32,
    /// The radius of a marker.
    pub keypoint_radius: Scalar,
    /// The radius rounded up to whole pixels.
    pub keypoint_reach: i32,
    pub draw_labels: bool,
    pub labels_color: u32,
    pub draw_skeleton: bool,
    pub skeleton_color: u32,
    pub skeleton_line_width: Scalar,
    /// Only groups whose tag begins with this are drawn; without it, all keypoints are,
    /// whatever their group.
    pub semantic_tag: Option<String>,
    pub suppress_builtin_rendering: bool,
    /// Cross-element priority (see [`crate::coordination`]).
    pub priority: i32,
    /// When set, emit labels as deferred intents for a downstream compositor
    /// (see [`crate::overlay_intent`]) instead of placing/rendering them here.
    pub defer_labels: bool,
    /// Publish drawn content as claimed regions for downstream coordination.
    pub publish_claimed_regions: bool,
}

impl Default for Settings {
    fn default() -> (r: Self)
        ensures
            !r.render_enabled,
            r.keypoint_color == 0xFFFF_0000,
            r.keypoint_radius == Scalar::of_int(3),
            r.keypoint_reach == 3,
            r.draw_labels,
            r.labels_color == 0xFFFF_FFFF,
            !r.draw_skeleton,
            r.skeleton_color == 0xFF00_FF00,
            r.skeleton_line_width == Scalar::of_int(2),
            r.semantic_tag is None,
            !r.suppress_builtin_rendering,
            r.priority == crate::coordination::DEFAULT_PRIORITY,
            !r.defer_labels,
            r.publish_claimed_regions,
    {
        Settings {
            render_enabled: false,
            keypoint_color: DEFAULT_KEYPOINT_COLOR,
            keypoint_radius: Scalar::from_i32(DEFAULT_KEYPOINT_RADIUS),
            keypoint_reach: DEFAULT_KEYPOINT_RADIUS,
            draw_labels: true,
            labels_color: DEFAULT_LABELS_COLOR,
            draw_skeleton: false,
            skeleton_color: DEFAULT_SKELETON_COLOR,
            skeleton_line_width: Scalar::from_i32(DEFAULT_SKELETON_LINE_WIDTH),
            semantic_tag: None,
            suppress_builtin_rendering: false,
            priority: crate::coordination::DEFAULT_PRIORITY,
            defer_labels: false,
            publish_claimed_regions: true,
        }
    }
}

/// The size of the frame.
#[derive(Debug, Clone, Copy)]
pub struct FrameBounds {
    pub width: i32,
    pub height: i32,
}

/// A keypoint that another one is related to.
#[derive(Debug, Clone, Copy)]
pub struct RelatedKeypoint {
    pub id: u32,
    /// Where it lies, if that could be read.
    pub position: Option<(i32, i32)>,
}

/// A keypoint, with what is related to it.
#[derive(Debug)]
pub struct Keypoint {
    pub id: u32,
    /// Where it lies, if that could be read.
    pub position: Option<(i32, i32)>,
    /// The confidence in it, as the text of its label.
    pub confidence: String,
    /// The measured width of that text.
    pub label_width: i32,
    /// The keypoints that it is related to.
    pub related: Vec<RelatedKeypoint>,
}

/// Keypoints that belong together.
#[derive(Debug)]
pub struct KeypointGroup {
    /// The group's semantic tag, if it could be read.
    pub tag: Option<String>,
    pub keypoints: Vec<Keypoint>,
}

/// A keypoint whose position is known; `index` is its place in its list.
#[derive(Debug, Clone, Copy, PartialEq, Eq, Structural)]
pub struct KeypointSample {
    pub index: usize,
    pub id: u32,
    pub x: i32,
    pub y: i32,
}

impl FrameBounds {
    pub open spec fn holds(self, x: int, y: int) -> bool {
        0 <= x < self.width && 0 <= y < self.height
    }

    /// The nearest position in the frame.
    pub open spec fn clamped(self, x: int, y: int) -> (int, int) {
        (
            crate::geometry::int_min(crate::geometry::int_max(x, 0), self.width - 1),
            crate::geometry::int_min(crate::geometry::int_max(y, 0), self.height - 1),
        )
    }
}

/// Whether a keypoint lies in the frame.
pub fn keypoint_in_frame(bounds: FrameBounds, x: i32, y: i32) -> (r: bool)
    ensures
        r == bounds.holds(x as int, y as int),
{
    x >= 0 && y >= 0 && x < bounds.width && y < bounds.height
}

/// The position in the frame that is nearest to the given one.
pub fn clamp_to_frame(bounds: FrameBounds, x: i32, y: i32) -> (r: (i32, i32))
    requires
        bounds.width >= 1,
        bounds.height >= 1,
    ensures
        r.0 == bounds.clamped(x as int, y as int).0,
        r.1 == bounds.clamped(x as int, y as int).1,
        bounds.holds(r.0 as int, r.1 as int),
{
    let max_x: i32 = bounds.width - 1;
    let max_y: i32 = bounds.height - 1;
    let cx: i32 = if x < 0 {
        0
    } else if x > max_x {
        max_x
    } else {
        x
    };
    let cy: i32 = if y < 0 {
        0
    } else if y > max_y {
        max_y
    } else {
        y
    };
    (cx, cy)
}

/// A position in the frame is its own nearest one, and clamping again changes nothing.
pub proof fn law_clamping_is_idempotent(bounds: FrameBounds, x: int, y: int)
    requires
        bounds.width >= 1,
        bounds.height >= 1,
    ensures
        bounds.holds(x, y) ==> bounds.clamped(x, y) == (x, y),
        bounds.holds(bounds.clamped(x, y).0, bounds.clamped(x, y).1),
        bounds.clamped(bounds.clamped(x, y).0, bounds.clamped(x, y).1) == bounds.clamped(x, y),
{
}

/// Whether a text begins with another one.
pub fn has_prefix(text: &str, prefix: &str) -> (r: bool)
    ensures
        r == prefix@.is_prefix_of(text@),
{
    let n: usize = prefix.unicode_len();
    if n > text.unicode_len() {
        return false;
    }
    let mut i: usize = 0;
    while i < n
        invariant
            i <= n == prefix@.len() <= text@.len(),
            forall|k: int| 0 <= k < i ==> prefix@[k] == text@[k],
        decreases n - i,
    {
        if prefix.get_char(i) != text.get_char(i) {
            return false;
        }
        i = i + 1;
    }
    assert(prefix@ =~= text@.subrange(0, prefix@.len() as int));
    true
}

/// The keypoints whose position is known, in order.
pub open spec fn samples_of(keypoints: Seq<Keypoint>) -> Seq<KeypointSample>
    decreases keypoints.len(),
{
    if keypoints.len() == 0 {
        Seq::empty()
    } else {
        let n = keypoints.len() - 1;
        let before = samples_of(keypoints.drop_last());
        match keypoints[n].position {
            Some((x, y)) => before.push(
                KeypointSample { index: n as usize, id: keypoints[n].id, x, y },
            ),
            None => before,
        }
    }
}

/// Every sample stands for the keypoint that it names.
pub open spec fn samples_fit(samples: Seq<KeypointSample>, keypoints: Seq<Keypoint>) -> bool {
    forall|i: int|
        0 <= i < samples.len() ==> (#[trigger] samples[i]).index < keypoints.len()
            && keypoints[samples[i].index as int].position == Some((samples[i].x, samples[i].y))
            && keypoints[samples[i].index as int].id == samples[i].id
}

/// The keypoints whose position is known, in order.
fn collect_samples(keypoints: &Vec<Keypoint>) -> (r: Vec<KeypointSample>)
    ensures
        r@ == samples_of(keypoints@),
        samples_fit(r@, keypoints@),
        r@.len() <= keypoints@.len(),
{
    let mut samples: Vec<KeypointSample> = Vec::new();
    let mut i: usize = 0;
    assert(keypoints@.take(0) =~= Seq::<Keypoint>::empty());
    while i < keypoints.len()
        invariant
            i <= keypoints.len(),
            samples@ == samples_of(keypoints@.take(i as int)),
            samples_fit(samples@, keypoints@),
            samples@.len() <= i,
        decreases keypoints.len() - i,
    {
        proof {
            let next = keypoints@.take(i + 1);
            assert(next.drop_last() =~= keypoints@.take(i as int));
            assert(next[i as int] == keypoints@[i as int]);
        }
        match keypoints[i].position {
            Some((x, y)) => {
                samples.push(KeypointSample { index: i, id: keypoints[i].id, x, y });
            },
            None => {},
        }
        i = i + 1;
    }
    assert(keypoints@.take(i as int) =~= keypoints@);
    samples
}

/// The square around a keypoint that its marker covers.
pub open spec fn marker_rect(sample: KeypointSample, reach: int) -> Rect {
    let side = crate::geometry::saturated(crate::geometry::saturated(2 * reach) + 1) as int;
    Rect::of(sample.x - reach, sample.y - reach, side, side)
}

/// The command that draws a keypoint's marker.
pub open spec fn marker_command(sample: KeypointSample, settings: Settings) -> DrawCommand {
    DrawCommand::Circle {
        cx: Scalar::of_int(sample.x as int),
        cy: Scalar::of_int(sample.y as int),
        radius: settings.keypoint_radius,
        argb: settings.keypoint_color,
    }
}

/// A keypoint label's preferred (default) rect: centered horizontally, sitting
/// just above the keypoint.
pub open spec fn default_rect(sample: KeypointSample, label_w: int) -> Rect {
    Rect::of(
        crate::geometry::saturated(sample.x - crate::geometry::half(label_w)) as int,
        crate::geometry::saturated(
            crate::geometry::saturated(sample.y - LABEL_LAYOUT_HEIGHT) - LABEL_LAYOUT_GAP,
        ) as int,
        label_w,
        LABEL_LAYOUT_HEIGHT as int,
    )
}

/// A keypoint label's preferred (default) rect: centered horizontally, sitting
/// just above the keypoint.
pub fn keypoint_label_default(sample: KeypointSample, label_w: i32) -> (r: Rect)
    ensures
        r == default_rect(sample, label_w as int),
        r.measurable(),
{
    Rect::from_xywh(
        saturating_difference(sample.x, halved(label_w)),
        saturating_difference(
            saturating_difference(sample.y, LABEL_LAYOUT_HEIGHT),
            LABEL_LAYOUT_GAP,
        ),
        label_w,
        LABEL_LAYOUT_HEIGHT,
    )
}

/// Where a keypoint's label goes.
pub open spec fn label_placement(
    o: crate::geometry::Occupancy,
    sample: KeypointSample,
    label_w: int,
) -> Option<LabelPlacement> {
    crate::placement::placement_of(
        o,
        default_rect(sample, label_w),
        crate::placement::point_candidates(
            sample.x as int,
            sample.y as int,
            label_w,
            LABEL_LAYOUT_HEIGHT as int,
        ),
    )
}

/// The candidates for a keypoint's label fit in the coordinate range.
pub open spec fn label_fits(sample: KeypointSample, label_w: int) -> bool {
    crate::placement::point_fits(
        sample.x as int,
        sample.y as int,
        label_w,
        LABEL_LAYOUT_HEIGHT as int,
    )
}

/// Place a keypoint's confidence label: preferred just above the keypoint, with
/// the shared candidate ring as fallbacks.
pub fn place_keypoint_label(
    registry: &mut OccupiedRegionRegistry,
    sample: KeypointSample,
    label_w: i32,
) -> (r: Option<LabelPlacement>)
    requires
        old(registry)@.summable(),
        label_fits(sample, label_w as int),
    ensures
        final(registry)@.sound(),
        final(registry)@.frame == old(registry)@.frame,
        final(registry)@.regions.len() <= old(registry)@.regions.len() + 1,
        r == label_placement(old(registry)@, sample, label_w as int),
        final(registry)@ == crate::placement::with_placement(old(registry)@, r),
        r matches Some(placement) ==> placement.rect.measurable(),
{
    proof {
        use_type_invariant(&*registry);
    }
    let default = keypoint_label_default(sample, label_w);
    let candidates = point_label_candidates(sample.x, sample.y, label_w, LABEL_LAYOUT_HEIGHT);
    proof {
        let o = registry@;
        let label = crate::geometry::RegionPriority::Label;
        crate::geometry::law_summable_areas_fit(o, label, default);
        assert forall|k: int| 0 <= k < candidates@.len() implies crate::placement::areas_fit(
            o,
            #[trigger] candidates@[k],
        ) by {
            crate::geometry::law_summable_areas_fit(o, label, candidates@[k]);
        }
        crate::placement::lemma_point_placement_is_measurable(
            o,
            default,
            sample.x as int,
            sample.y as int,
            label_w as int,
            LABEL_LAYOUT_HEIGHT as int,
        );
    }
    place_label(registry, default, candidates.as_slice())
}

/// The point that a keypoint is.
pub open spec fn point_rect(sample: KeypointSample) -> Rect {
    Rect::of(sample.x as int, sample.y as int, 0, 0)
}

/// A keypoint's label as the intent that a compositor places.
pub open spec fn label_intent(
    sample: KeypointSample,
    keypoint: Keypoint,
    settings: Settings,
) -> crate::overlay_intent::Intent {
    crate::overlay_intent::Intent {
        text: keypoint.confidence@,
        color: settings.labels_color,
        anchor: point_rect(sample),
        preferred: default_rect(sample, keypoint.label_width as int),
        kind: CandidateKind::Point,
        priority: settings.priority,
        owner: OVERLAY_OWNER@,
    }
}

/// Build a deferred intent for a keypoint label, with the same preferred rect
/// [`place_keypoint_label`] would use, so a compositor reproduces its placement.
pub fn keypoint_label_intent(
    sample: KeypointSample,
    keypoint: &Keypoint,
    settings: &Settings,
) -> (r: LabelIntent)
    ensures
        r@ == label_intent(sample, *keypoint, *settings),
        r.text == keypoint.confidence,
{
    let intent = LabelIntent {
        text: keypoint.confidence.clone(),
        color: settings.labels_color,
        anchor: Rect::from_xywh(sample.x, sample.y, 0, 0),
        preferred: keypoint_label_default(sample, keypoint.label_width),
        kind: CandidateKind::Point,
        priority: settings.priority,
        owner: OVERLAY_OWNER.to_owned(),
    };
    assert(intent@ == label_intent(sample, *keypoint, *settings));
    intent
}

/// The commands that draw a placed label: a leader line if it was displaced, then the text.
pub open spec fn label_commands(
    sample: KeypointSample,
    text: String,
    placement: LabelPlacement,
    argb: u32,
) -> Seq<DrawCommand> {
    let ends = crate::placement::leader_of(point_rect(sample), placement.rect);
    let label = DrawCommand::TextCentered {
        x: Scalar::of_int(placement.rect.middle().0),
        y: Scalar::of_int(placement.rect.middle().1),
        text,
        argb,
    };
    if placement.displaced {
        seq![crate::placement::leader_command(ends.0, ends.1, argb), label]
    } else {
        seq![label]
    }
}

/// Draw a keypoint's label at its placed position, with a leader line back to
/// the keypoint when the label was displaced.
pub fn push_keypoint_label(
    commands: &mut Vec<DrawCommand>,
    placement: LabelPlacement,
    sample: KeypointSample,
    text: &String,
    argb: u32,
)
    requires
        placement.rect.measurable(),
    ensures
        final(commands)@ == old(commands)@ + label_commands(sample, *text, placement, argb),
{
    let (cx, cy) = placement.rect.center();
    if placement.displaced {
        // The keypoint is a point feature, so use a zero-sized rect at it.
        let keypoint = Rect::from_xywh(sample.x, sample.y, 0, 0);
        let (from, to) = leader_endpoints(keypoint, placement.rect);
        push_leader_line(commands, from, to, argb);
    }
    commands.push(
        DrawCommand::TextCentered {
            x: Scalar::from_i32(cx),
            y: Scalar::from_i32(cy),
            text: text.clone(),
            argb,
        },
    );
    assert(commands@ =~= old(commands)@ + label_commands(sample, *text, placement, argb));
}

/// What has been drawn so far: the taken regions, the commands, the deferred labels.
pub struct Canvas {
    pub occupied: crate::geometry::Occupancy,
    pub commands: Seq<DrawCommand>,
    pub deferred: Seq<crate::overlay_intent::Intent>,
}

/// The markers of the samples in the frame are drawn, and their squares reserved, whatever
/// they overlap.
pub open spec fn with_markers(
    canvas: Canvas,
    samples: Seq<KeypointSample>,
    settings: Settings,
    bounds: FrameBounds,
) -> Canvas
    decreases samples.len(),
{
    if samples.len() == 0 {
        canvas
    } else {
        let before = with_markers(canvas, samples.drop_last(), settings, bounds);
        let sample = samples.last();
        if bounds.holds(sample.x as int, sample.y as int) {
            Canvas {
                occupied: before.occupied.with_region(
                    crate::geometry::RegionPriority::Highlight,
                    marker_rect(sample, settings.keypoint_reach as int),
                ),
                commands: before.commands.push(marker_command(sample, settings)),
                deferred: before.deferred,
            }
        } else {
            before
        }
    }
}

/// One label is drawn where it is placed, or deferred.
pub open spec fn with_label(
    canvas: Canvas,
    sample: KeypointSample,
    keypoint: Keypoint,
    settings: Settings,
) -> Canvas {
    if settings.defer_labels {
        Canvas { deferred: canvas.deferred.push(label_intent(sample, keypoint, settings)), ..canvas }
    } else {
        let placement = label_placement(canvas.occupied, sample, keypoint.label_width as int);
        Canvas {
            occupied: crate::placement::with_placement(canvas.occupied, placement),
            commands: match placement {
                Some(placement) => canvas.commands + label_commands(
                    sample,
                    keypoint.confidence,
                    placement,
                    settings.labels_color,
                ),
                None => canvas.commands,
            },
            deferred: canvas.deferred,
        }
    }
}

/// Every sample in the frame gets its label, in order.
pub open spec fn with_labels(
    canvas: Canvas,
    samples: Seq<KeypointSample>,
    keypoints: Seq<Keypoint>,
    settings: Settings,
    bounds: FrameBounds,
) -> Canvas
    decreases samples.len(),
{
    if samples.len() == 0 {
        canvas
    } else {
        let before = with_labels(canvas, samples.drop_last(), keypoints, settings, bounds);
        let sample = samples.last();
        if bounds.holds(sample.x as int, sample.y as int) {
            with_label(before, sample, keypoints[sample.index as int], settings)
        } else {
            before
        }
    }
}

/// The sample at `i` is the first one in the frame.
pub open spec fn first_in_frame(
    samples: Seq<KeypointSample>,
    bounds: FrameBounds,
    i: int,
) -> bool {
    &&& 0 <= i < samples.len()
    &&& bounds.holds(samples[i].x as int, samples[i].y as int)
    &&& forall|k: int|
        0 <= k < i ==> !bounds.holds(#[trigger] samples[k].x as int, samples[k].y as int)
}

/// The markers, then the labels: one for the whole list, or one for each sample.
pub open spec fn with_keypoints(
    canvas: Canvas,
    samples: Seq<KeypointSample>,
    keypoints: Seq<Keypoint>,
    label_once: bool,
    settings: Settings,
    bounds: FrameBounds,
) -> Canvas {
    let marked = with_markers(canvas, samples, settings, bounds);
    if !settings.draw_labels {
        marked
    } else if !label_once {
        with_labels(marked, samples, keypoints, settings, bounds)
    } else if exists|i: int| first_in_frame(samples, bounds, i) {
        let sample = samples[choose|i: int| first_in_frame(samples, bounds, i)];
        with_label(marked, sample, keypoints[sample.index as int], settings)
    } else {
        marked
    }
}

/// The labels of the samples in the frame have candidates that fit in the coordinate range.
pub open spec fn labels_fit(
    samples: Seq<KeypointSample>,
    keypoints: Seq<Keypoint>,
    bounds: FrameBounds,
) -> bool {
    forall|i: int|
        0 <= i < samples.len() && bounds.holds(samples[i].x as int, samples[i].y as int)
            ==> label_fits(
            #[trigger] samples[i],
            keypoints[samples[i].index as int].label_width as int,
        )
}

/// Draw one label, or defer it.
fn emit_label(
    commands: &mut Vec<DrawCommand>,
    occupied: &mut OccupiedRegionRegistry,
    deferred: &mut Vec<LabelIntent>,
    sample: KeypointSample,
    keypoint: &Keypoint,
    settings: &Settings,
)
    requires
        old(occupied)@.summable(),
        !settings.defer_labels ==> label_fits(sample, keypoint.label_width as int),
    ensures
        final(occupied)@.sound(),
        final(occupied)@.frame == old(occupied)@.frame,
        final(occupied)@.regions.len() <= old(occupied)@.regions.len() + 1,
        drawn_from(
            final(occupied)@,
            final(commands)@,
            final(deferred)@,
            with_label(
                canvas_of(old(occupied)@, old(commands)@, old(deferred)@),
                sample,
                *keypoint,
                *settings,
            ),
        ),
{
    proof {
        use_type_invariant(&*occupied);
    }
    if settings.defer_labels {
        deferred.push(keypoint_label_intent(sample, keypoint, settings));
        assert(crate::overlay_intent::intents(deferred@) =~= crate::overlay_intent::intents(
            old(deferred)@,
        ).push(label_intent(sample, *keypoint, *settings)));
    } else {
        match place_keypoint_label(occupied, sample, keypoint.label_width) {
            Some(placement) => {
                push_keypoint_label(
                    commands,
                    placement,
                    sample,
                    &keypoint.confidence,
                    settings.labels_color,
                );
            },
            None => {},
        }
    }
}

/// The canvas that a registry and two lists hold.
pub open spec fn canvas_of(
    occupied: crate::geometry::Occupancy,
    commands: Seq<DrawCommand>,
    deferred: Seq<LabelIntent>,
) -> Canvas {
    Canvas { occupied, commands, deferred: crate::overlay_intent::intents(deferred) }
}

/// A registry and two lists hold the canvas.
pub open spec fn drawn_from(
    occupied: crate::geometry::Occupancy,
    commands: Seq<DrawCommand>,
    deferred: Seq<LabelIntent>,
    canvas: Canvas,
) -> bool {
    &&& occupied == canvas.occupied
    &&& commands == canvas.commands
    &&& crate::overlay_intent::intents(deferred) == canvas.deferred
}

/// Draw the keypoint markers and their confidence label(s). Shared by every
/// renderer; only the skeleton differs between them.
fn push_keypoints(
    commands: &mut Vec<DrawCommand>,
    occupied: &mut OccupiedRegionRegistry,
    deferred: &mut Vec<LabelIntent>,
    samples: &Vec<KeypointSample>,
    keypoints: &Vec<Keypoint>,
    label_once: bool,
    settings: &Settings,
    bounds: FrameBounds,
)
    requires
        crate::geometry::frame_takes(
            old(occupied)@.frame,
            old(occupied)@.regions.len() + 2 * samples@.len(),
        ),
        samples_fit(samples@, keypoints@),
        settings.draw_labels && !settings.defer_labels ==> labels_fit(
            samples@,
            keypoints@,
            bounds,
        ),
    ensures
        final(occupied)@.sound(),
        final(occupied)@.frame == old(occupied)@.frame,
        final(occupied)@.regions.len() <= old(occupied)@.regions.len() + 2 * samples@.len(),
        drawn_from(
            final(occupied)@,
            final(commands)@,
            final(deferred)@,
            with_keypoints(
                canvas_of(old(occupied)@, old(commands)@, old(deferred)@),
                samples@,
                keypoints@,
                label_once,
                *settings,
                bounds,
            ),
        ),
{
    proof {
        use_type_invariant(&*occupied);
    }
    let ghost start = canvas_of(occupied@, commands@, deferred@);
    let mut first: Option<KeypointSample> = None;
    let reach: i32 = settings.keypoint_reach;
    let side: i32 = saturating_sum(saturating_sum(reach, reach), 1);
    // Register and draw every keypoint marker before any label, so that labels avoid them.
    let mut i: usize = 0;
    assert(samples@.take(0) =~= Seq::<KeypointSample>::empty());
    while i < samples.len()
        invariant
            i <= samples.len(),
            reach == settings.keypoint_reach,
            side == crate::geometry::saturated(crate::geometry::saturated(2 * reach) + 1),
            occupied@.sound(),
            occupied@.frame == old(occupied)@.frame,
            occupied@.regions.len() <= old(occupied)@.regions.len() + i,
            *deferred == *old(deferred),
            start == canvas_of(old(occupied)@, old(commands)@, old(deferred)@),
            drawn_from(
                occupied@,
                commands@,
                deferred@,
                with_markers(start, samples@.take(i as int), *settings, bounds),
            ),
            first is None ==> forall|k: int|
                0 <= k < i ==> !bounds.holds(#[trigger] samples@[k].x as int, samples@[k].y as int),
            first matches Some(sample) ==> exists|k: int|
                k < i && #[trigger] first_in_frame(samples@, bounds, k) && samples@[k] == sample,
        decreases samples.len() - i,
    {
        let sample = samples[i];
        proof {
            let next = samples@.take(i + 1);
            assert(next.drop_last() =~= samples@.take(i as int));
            assert(next.last() == sample);
        }
        if keypoint_in_frame(bounds, sample.x, sample.y) {
            if first.is_none() {
                assert(first_in_frame(samples@, bounds, i as int));
                first = Some(sample);
            }
            let _ = occupied.force_reserve(
                RegionPriority::Highlight,
                Rect::from_xywh(
                    saturating_difference(sample.x, reach),
                    saturating_difference(sample.y, reach),
                    side,
                    side,
                ),
            );
            commands.push(
                DrawCommand::Circle {
                    cx: Scalar::from_i32(sample.x),
                    cy: Scalar::from_i32(sample.y),
                    radius: settings.keypoint_radius,
                    argb: settings.keypoint_color,
                },
            );
        }
        i = i + 1;
    }
    assert(samples@.take(i as int) =~= samples@);
    let ghost marked = with_markers(start, samples@, *settings, bounds);
    if !settings.draw_labels {
        return;
    }
    let ghost room = old(occupied)@.regions.len() + 2 * samples@.len();
    if label_once {
        match first {
            Some(sample) => {
                proof {
                    let k = choose|k: int|
                        k < i && #[trigger] first_in_frame(samples@, bounds, k) && samples@[k]
                            == sample;
                    let c = choose|i: int| first_in_frame(samples@, bounds, i);
                    assert(c == k);
                    assert(samples@[k].index < keypoints@.len());
                    crate::geometry::lemma_frame_takes_fewer(
                        occupied@.frame,
                        room,
                        occupied@.regions.len(),
                    );
                }
                emit_label(
                    commands,
                    occupied,
                    deferred,
                    sample,
                    &keypoints[sample.index],
                    settings,
                );
            },
            None => {
                assert forall|c: int| !first_in_frame(samples@, bounds, c) by {
                    if 0 <= c < samples@.len() {
                        assert(!bounds.holds(samples@[c].x as int, samples@[c].y as int));
                    }
                }
            },
        }
        return;
    }
    let mut j: usize = 0;
    assert(samples@.take(0) =~= Seq::<KeypointSample>::empty());
    while j < samples.len()
        invariant
            j <= samples.len(),
            room == old(occupied)@.regions.len() + 2 * samples@.len(),
            crate::geometry::frame_takes(old(occupied)@.frame, room),
            samples_fit(samples@, keypoints@),
            settings.draw_labels,
            !settings.defer_labels ==> labels_fit(samples@, keypoints@, bounds),
            occupied@.sound(),
            occupied@.frame == old(occupied)@.frame,
            occupied@.regions.len() <= old(occupied)@.regions.len() + samples@.len() + j,
            drawn_from(
                occupied@,
                commands@,
                deferred@,
                with_labels(marked, samples@.take(j as int), keypoints@, *settings, bounds),
            ),
        decreases samples.len() - j,
    {
        let sample = samples[j];
        proof {
            let next = samples@.take(j + 1);
            assert(next.drop_last() =~= samples@.take(j as int));
            assert(next.last() == sample);
            assert(samples@[j as int].index < keypoints@.len());
            crate::geometry::lemma_frame_takes_fewer(
                occupied@.frame,
                room,
                occupied@.regions.len(),
            );
        }
        if keypoint_in_frame(bounds, sample.x, sample.y) {
            emit_label(commands, occupied, deferred, sample, &keypoints[sample.index], settings);
        }
        j = j + 1;
    }
    assert(samples@.take(j as int) =~= samples@);
}

/// A line of the skeleton between two positions, each moved into the frame.
pub open spec fn bone_command(
    from: (i32, i32),
    to: (i32, i32),
    settings: Settings,
    bounds: FrameBounds,
) -> DrawCommand {
    DrawCommand::Line {
        x0: Scalar::of_int(bounds.clamped(from.0 as int, from.1 as int).0),
        y0: Scalar::of_int(bounds.clamped(from.0 as int, from.1 as int).1),
        x1: Scalar::of_int(bounds.clamped(to.0 as int, to.1 as int).0),
        y1: Scalar::of_int(bounds.clamped(to.0 as int, to.1 as int).1),
        argb: settings.skeleton_color,
        width: settings.skeleton_line_width,
    }
}

/// Draw a line of the skeleton, each end moved into the frame.
fn push_bone(
    commands: &mut Vec<DrawCommand>,
    from: (i32, i32),
    to: (i32, i32),
    settings: &Settings,
    bounds: FrameBounds,
)
    requires
        bounds.width >= 1,
        bounds.height >= 1,
    ensures
        final(commands)@ == old(commands)@.push(bone_command(from, to, *settings, bounds)),
{
    let (x0, y0) = clamp_to_frame(bounds, from.0, from.1);
    let (x1, y1) = clamp_to_frame(bounds, to.0, to.1);
    commands.push(
        DrawCommand::Line {
            x0: Scalar::from_i32(x0),
            y0: Scalar::from_i32(y0),
            x1: Scalar::from_i32(x1),
            y1: Scalar::from_i32(y1),
            argb: settings.skeleton_color,
            width: settings.skeleton_line_width,
        },
    );
}

/// A keypoint is linked to a related one of a higher id whose position is known.
pub open spec fn linked(id: u32, related: RelatedKeypoint) -> bool {
    id < related.id && related.position is Some
}

/// The lines from one sample to what it is linked to.
pub open spec fn sample_lines(
    sample: KeypointSample,
    related: Seq<RelatedKeypoint>,
    settings: Settings,
    bounds: FrameBounds,
) -> Seq<DrawCommand>
    decreases related.len(),
{
    if related.len() == 0 {
        Seq::empty()
    } else {
        let before = sample_lines(sample, related.drop_last(), settings, bounds);
        if linked(sample.id, related.last()) {
            before.push(
                bone_command(
                    (sample.x, sample.y),
                    related.last().position->0,
                    settings,
                    bounds,
                ),
            )
        } else {
            before
        }
    }
}

/// The lines between linked keypoints.
pub open spec fn relation_lines(
    samples: Seq<KeypointSample>,
    keypoints: Seq<Keypoint>,
    settings: Settings,
    bounds: FrameBounds,
) -> Seq<DrawCommand>
    decreases samples.len(),
{
    if samples.len() == 0 {
        Seq::empty()
    } else {
        let sample = samples.last();
        relation_lines(samples.drop_last(), keypoints, settings, bounds) + sample_lines(
            sample,
            keypoints[sample.index as int].related@,
            settings,
            bounds,
        )
    }
}

/// No sample is linked to anything.
pub open spec fn unlinked(samples: Seq<KeypointSample>, keypoints: Seq<Keypoint>) -> bool {
    forall|i: int, k: int|
        0 <= i < samples.len() && 0 <= k < keypoints[samples[i].index as int].related@.len()
            ==> !linked(
            (#[trigger] samples[i]).id,
            #[trigger] keypoints[samples[i].index as int].related@[k],
        )
}

/// Generic skeleton: connect keypoints linked by a relation, each pair once.
fn push_relation_skeleton(
    commands: &mut Vec<DrawCommand>,
    samples: &Vec<KeypointSample>,
    keypoints: &Vec<Keypoint>,
    settings: &Settings,
    bounds: FrameBounds,
)
    requires
        samples_fit(samples@, keypoints@),
        unlinked(samples@, keypoints@) || bounds.width >= 1 && bounds.height >= 1,
    ensures
        final(commands)@ == old(commands)@ + relation_lines(
            samples@,
            keypoints@,
            *settings,
            bounds,
        ),
{
    let mut i: usize = 0;
    assert(samples@.take(0) =~= Seq::<KeypointSample>::empty());
    assert(commands@ =~= old(commands)@ + Seq::<DrawCommand>::empty());
    while i < samples.len()
        invariant
            i <= samples.len(),
            samples_fit(samples@, keypoints@),
            unlinked(samples@, keypoints@) || bounds.width >= 1 && bounds.height >= 1,
            commands@ == old(commands)@ + relation_lines(
                samples@.take(i as int),
                keypoints@,
                *settings,
                bounds,
            ),
        decreases samples.len() - i,
    {
        let sample = samples[i];
        assert(samples@[i as int].index < keypoints@.len());
        let related = &keypoints[sample.index].related;
        let ghost before = commands@;
        let mut k: usize = 0;
        assert(related@.take(0) =~= Seq::<RelatedKeypoint>::empty());
        assert(commands@ =~= before + Seq::<DrawCommand>::empty());
        while k < related.len()
            invariant
                i < samples.len(),
                k <= related.len(),
                sample == samples@[i as int],
                related@ == keypoints@[sample.index as int].related@,
                unlinked(samples@, keypoints@) || bounds.width >= 1 && bounds.height >= 1,
                commands@ == before + sample_lines(
                    sample,
                    related@.take(k as int),
                    *settings,
                    bounds,
                ),
            decreases related.len() - k,
        {
            proof {
                let next = related@.take(k + 1);
                assert(next.drop_last() =~= related@.take(k as int));
                assert(next.last() == related@[k as int]);
                assert(keypoints@[samples@[i as int].index as int].related@[k as int]
                    == related@[k as int]);
            }
            if sample.id < related[k].id {
                match related[k].position {
                    Some(position) => {
                        let ghost lines = sample_lines(
                            sample,
                            related@.take(k as int),
                            *settings,
                            bounds,
                        );
                        push_bone(commands, (sample.x, sample.y), position, settings, bounds);
                        assert(commands@ =~= before + lines.push(
                            bone_command((sample.x, sample.y), position, *settings, bounds),
                        ));
                    },
                    None => {},
                }
            }
            k = k + 1;
        }
        proof {
            assert(related@.take(k as int) =~= related@);
            let next = samples@.take(i + 1);
            assert(next.drop_last() =~= samples@.take(i as int));
            assert(next.last() == sample);
            assert(commands@ =~= old(commands)@ + relation_lines(
                next,
                keypoints@,
                *settings,
                bounds,
            ));
        }
        i = i + 1;
    }
    assert(samples@.take(i as int) =~= samples@);
}

/// Semantic tag of the 21-point hand keypoint model.
pub const HAND_KP_21_TAG: &'static str = "hand-kp-21";

/// Bone connections for the 21-point hand model, as index pairs into the
/// group's ordered keypoints (wrist and four joints per finger): thumb, index, middle,
/// ring, pinky, and the palm's base.
pub const HAND_KP_21_BONES: [(usize, usize); 21] = [
    (0, 1),
    (1, 2),
    (2, 3),
    (3, 4),
    (0, 5),
    (5, 6),
    (6, 7),
    (7, 8),
    (5, 9),
    (9, 10),
    (10, 11),
    (11, 12),
    (9, 13),
    (13, 14),
    (14, 15),
    (15, 16),
    (13, 17),
    (17, 18),
    (18, 19),
    (19, 20),
    (0, 17),
];

/// The first `n` bones of a hand, as far as both their ends are there.
pub open spec fn hand_lines(
    samples: Seq<KeypointSample>,
    n: nat,
    settings: Settings,
    bounds: FrameBounds,
) -> Seq<DrawCommand>
    decreases n,
{
    if n == 0 {
        Seq::empty()
    } else {
        let before = hand_lines(samples, (n - 1) as nat, settings, bounds);
        let (a, b) = HAND_KP_21_BONES@[n - 1];
        if a < samples.len() && b < samples.len() {
            let from = samples[a as int];
            let to = samples[b as int];
            before.push(bone_command((from.x, from.y), (to.x, to.y), settings, bounds))
        } else {
            before
        }
    }
}

/// Draw the hand's bones from their fixed topology, so that no relations are needed.
fn push_hand_skeleton(
    commands: &mut Vec<DrawCommand>,
    samples: &Vec<KeypointSample>,
    settings: &Settings,
    bounds: FrameBounds,
)
    requires
        samples@.len() <= 1 || bounds.width >= 1 && bounds.height >= 1,
    ensures
        final(commands)@ == old(commands)@ + hand_lines(samples@, 21, *settings, bounds),
{
    let mut n: usize = 0;
    assert(commands@ =~= old(commands)@ + Seq::<DrawCommand>::empty());
    while n < 21
        invariant
            n <= 21,
            samples@.len() <= 1 || bounds.width >= 1 && bounds.height >= 1,
            commands@ == old(commands)@ + hand_lines(samples@, n as nat, *settings, bounds),
        decreases 21 - n,
    {
        let (a, b) = HAND_KP_21_BONES[n];
        if a < samples.len() && b < samples.len() {
            let from = samples[a];
            let to = samples[b];
            let ghost lines = hand_lines(samples@, n as nat, *settings, bounds);
            assert(a != b);
            push_bone(commands, (from.x, from.y), (to.x, to.y), settings, bounds);
            assert(commands@ =~= old(commands)@ + lines.push(
                bone_command((from.x, from.y), (to.x, to.y), *settings, bounds),
            ));
        }
        n = n + 1;
    }
}

/// How a group's skeleton is drawn.
#[derive(Debug, Clone, Copy, PartialEq, Eq, Structural)]
pub enum GroupRenderer {
    /// From the relations between the keypoints. Handles any group.
    GenericRelation,
    /// From the fixed topology of the 21-point hand model.
    HandKp21,
}

impl GroupRenderer {
    /// Identifier for debugging.
    pub fn name(&self) -> (r: &'static str)
        ensures
            r@ == match self {
                GroupRenderer::GenericRelation => "generic-relation"@,
                GroupRenderer::HandKp21 => HAND_KP_21_TAG@,
            },
    {
        match self {
            GroupRenderer::GenericRelation => "generic-relation",
            GroupRenderer::HandKp21 => HAND_KP_21_TAG,
        }
    }

    /// The skeleton of a group.
    pub open spec fn skeleton(
        self,
        samples: Seq<KeypointSample>,
        keypoints: Seq<Keypoint>,
        settings: Settings,
        bounds: FrameBounds,
    ) -> Seq<DrawCommand> {
        match self {
            GroupRenderer::GenericRelation => relation_lines(samples, keypoints, settings, bounds),
            GroupRenderer::HandKp21 => hand_lines(samples, 21, settings, bounds),
        }
    }

    /// A frame without pixels has no place for a skeleton's lines: there are none, or
    /// the frame has pixels.
    pub open spec fn drawable(
        self,
        samples: Seq<KeypointSample>,
        keypoints: Seq<Keypoint>,
        bounds: FrameBounds,
    ) -> bool {
        ||| bounds.width >= 1 && bounds.height >= 1
        ||| match self {
            GroupRenderer::GenericRelation => unlinked(samples, keypoints),
            GroupRenderer::HandKp21 => samples.len() <= 1,
        }
    }
}

/// The renderer of a semantic tag.
pub open spec fn renderer_of(tag: Option<Seq<char>>) -> GroupRenderer {
    if tag == Some(HAND_KP_21_TAG@) {
        GroupRenderer::HandKp21
    } else {
        GroupRenderer::GenericRelation
    }
}

/// A tag's characters.
pub open spec fn tag_view(tag: Option<String>) -> Option<Seq<char>> {
    match tag {
        Some(tag) => Some(tag@),
        None => None,
    }
}

/// Route a group's semantic tag to its renderer: known tags get a specialized
/// renderer, everything else falls back to the generic relation renderer.
pub fn renderer_for_tag(semantic_tag: &Option<String>) -> (r: GroupRenderer)
    ensures
        r == renderer_of(tag_view(*semantic_tag)),
{
    match semantic_tag {
        Some(tag) => {
            let hand = HAND_KP_21_TAG.to_owned();
            if *tag == hand {
                GroupRenderer::HandKp21
            } else {
                GroupRenderer::GenericRelation
            }
        },
        None => GroupRenderer::GenericRelation,
    }
}

/// The group's tag begins with the wanted one.
pub open spec fn wanted(group: KeypointGroup, prefix: Seq<char>) -> bool {
    group.tag matches Some(tag) && prefix.is_prefix_of(tag@)
}

/// A group is drawn: its keypoints with one label, and its skeleton.
pub open spec fn with_group(
    canvas: Canvas,
    group: KeypointGroup,
    settings: Settings,
    bounds: FrameBounds,
) -> Canvas {
    let keypoints = group.keypoints@;
    let samples = samples_of(keypoints);
    let labelled = with_keypoints(canvas, samples, keypoints, true, settings, bounds);
    if settings.draw_skeleton {
        Canvas {
            commands: labelled.commands + renderer_of(tag_view(group.tag)).skeleton(
                samples,
                keypoints,
                settings,
                bounds,
            ),
            ..labelled
        }
    } else {
        labelled
    }
}

/// The wanted groups are drawn one after the other.
pub open spec fn with_groups(
    canvas: Canvas,
    groups: Seq<KeypointGroup>,
    prefix: Seq<char>,
    settings: Settings,
    bounds: FrameBounds,
) -> Canvas
    decreases groups.len(),
{
    if groups.len() == 0 {
        canvas
    } else {
        let before = with_groups(canvas, groups.drop_last(), prefix, settings, bounds);
        if wanted(groups.last(), prefix) {
            with_group(before, groups.last(), settings, bounds)
        } else {
            before
        }
    }
}

/// How many keypoints the wanted groups hold whose position is known.
pub open spec fn group_count(groups: Seq<KeypointGroup>, prefix: Seq<char>) -> nat
    decreases groups.len(),
{
    if groups.len() == 0 {
        0
    } else {
        let before = group_count(groups.drop_last(), prefix);
        if wanted(groups.last(), prefix) {
            before + samples_of(groups.last().keypoints@).len()
        } else {
            before
        }
    }
}

/// The limits within which a list of keypoints is drawn: its labels' candidates fit in the
/// coordinate range.
pub open spec fn keypoints_fit(
    keypoints: Seq<Keypoint>,
    settings: Settings,
    bounds: FrameBounds,
) -> bool {
    settings.draw_labels && !settings.defer_labels ==> labels_fit(
        samples_of(keypoints),
        keypoints,
        bounds,
    )
}

/// The limits within which a group is drawn.
pub open spec fn group_fits(
    group: KeypointGroup,
    settings: Settings,
    bounds: FrameBounds,
) -> bool {
    &&& keypoints_fit(group.keypoints@, settings, bounds)
    &&& settings.draw_skeleton ==> renderer_of(tag_view(group.tag)).drawable(
        samples_of(group.keypoints@),
        group.keypoints@,
        bounds,
    )
}

/// Draw one group.
fn push_group(
    commands: &mut Vec<DrawCommand>,
    occupied: &mut OccupiedRegionRegistry,
    deferred: &mut Vec<LabelIntent>,
    group: &KeypointGroup,
    settings: &Settings,
    bounds: FrameBounds,
) -> (count: usize)
    requires
        crate::geometry::frame_takes(
            old(occupied)@.frame,
            old(occupied)@.regions.len() + 2 * samples_of(group.keypoints@).len(),
        ),
        group_fits(*group, *settings, bounds),
    ensures
        count == samples_of(group.keypoints@).len(),
        final(occupied)@.sound(),
        final(occupied)@.frame == old(occupied)@.frame,
        final(occupied)@.regions.len() <= old(occupied)@.regions.len() + 2 * count,
        drawn_from(
            final(occupied)@,
            final(commands)@,
            final(deferred)@,
            with_group(
                canvas_of(old(occupied)@, old(commands)@, old(deferred)@),
                *group,
                *settings,
                bounds,
            ),
        ),
{
    let samples = collect_samples(&group.keypoints);
    push_keypoints(
        commands,
        occupied,
        deferred,
        &samples,
        &group.keypoints,
        true,
        settings,
        bounds,
    );
    if settings.draw_skeleton {
        match renderer_for_tag(&group.tag) {
            GroupRenderer::GenericRelation => {
                push_relation_skeleton(commands, &samples, &group.keypoints, settings, bounds);
            },
            GroupRenderer::HandKp21 => {
                push_hand_skeleton(commands, &samples, settings, bounds);
            },
        }
    }
    samples.len()
}

/// The whole overlay: the wanted groups, or all keypoints one by one.
pub open spec fn overlay_of(
    groups: Seq<KeypointGroup>,
    keypoints: Seq<Keypoint>,
    claims: Seq<crate::coordination::Claim>,
    settings: Settings,
    bounds: FrameBounds,
) -> Canvas {
    let start = Canvas {
        occupied: crate::coordination::seeded(
            crate::geometry::Occupancy::fresh(bounds.width as int, bounds.height as int),
            claims,
            Some(OVERLAY_OWNER@),
            settings.priority,
        ),
        commands: Seq::empty(),
        deferred: Seq::empty(),
    };
    match settings.semantic_tag {
        Some(prefix) => with_groups(start, groups, prefix@, settings, bounds),
        None => with_keypoints(
            start,
            samples_of(keypoints),
            keypoints,
            false,
            settings,
            bounds,
        ),
    }
}

/// How many keypoints an overlay shows.
pub open spec fn keypoint_count(
    groups: Seq<KeypointGroup>,
    keypoints: Seq<Keypoint>,
    settings: Settings,
) -> nat {
    match settings.semantic_tag {
        Some(prefix) => group_count(groups, prefix@),
        None => samples_of(keypoints).len(),
    }
}

/// The limits within which an overlay is drawn.
pub open spec fn overlay_fits(
    groups: Seq<KeypointGroup>,
    keypoints: Seq<Keypoint>,
    settings: Settings,
    bounds: FrameBounds,
) -> bool {
    match settings.semantic_tag {
        Some(prefix) => forall|g: int|
            0 <= g < groups.len() && wanted(groups[g], prefix@) ==> group_fits(
                #[trigger] groups[g],
                settings,
                bounds,
            ),
        None => keypoints_fit(keypoints, settings, bounds),
    }
}

/// The first groups hold no more keypoints than all of them.
proof fn lemma_group_count_grows(groups: Seq<KeypointGroup>, prefix: Seq<char>, i: int)
    requires
        0 <= i <= groups.len(),
    ensures
        group_count(groups.take(i), prefix) <= group_count(groups, prefix),
    decreases groups.len(),
{
    if i == groups.len() {
        assert(groups.take(i) =~= groups);
    } else {
        lemma_group_count_grows(groups.drop_last(), prefix, i);
        assert(groups.drop_last().take(i) =~= groups.take(i));
    }
}

/// Whether the labels of the samples in the frame have candidates that fit in the coordinate
/// range.
fn labels_have_room(
    samples: &Vec<KeypointSample>,
    keypoints: &Vec<Keypoint>,
    bounds: FrameBounds,
) -> (r: bool)
    requires
        samples_fit(samples@, keypoints@),
    ensures
        r == labels_fit(samples@, keypoints@, bounds),
{
    let mut i: usize = 0;
    while i < samples.len()
        invariant
            i <= samples.len(),
            samples_fit(samples@, keypoints@),
            forall|k: int|
                0 <= k < i && bounds.holds(samples@[k].x as int, samples@[k].y as int)
                    ==> label_fits(
                    #[trigger] samples@[k],
                    keypoints@[samples@[k].index as int].label_width as int,
                ),
        decreases samples.len() - i,
    {
        let sample = samples[i];
        assert(samples@[i as int].index < keypoints@.len());
        let label_w: i32 = keypoints[sample.index].label_width;
        if keypoint_in_frame(bounds, sample.x, sample.y) && !point_label_fits(
            sample.x,
            sample.y,
            label_w,
            LABEL_LAYOUT_HEIGHT,
        ) {
            assert(!label_fits(
                samples@[i as int],
                keypoints@[samples@[i as int].index as int].label_width as int,
            ));
            return false;
        }
        i = i + 1;
    }
    true
}

/// Whether no sample is linked to anything.
fn nothing_is_linked(samples: &Vec<KeypointSample>, keypoints: &Vec<Keypoint>) -> (r: bool)
    requires
        samples_fit(samples@, keypoints@),
    ensures
        r == unlinked(samples@, keypoints@),
{
    let mut i: usize = 0;
    while i < samples.len()
        invariant
            i <= samples.len(),
            samples_fit(samples@, keypoints@),
            forall|j: int, k: int|
                0 <= j < i && 0 <= k < keypoints@[samples@[j].index as int].related@.len()
                    ==> !linked(
                    (#[trigger] samples@[j]).id,
                    #[trigger] keypoints@[samples@[j].index as int].related@[k],
                ),
        decreases samples.len() - i,
    {
        let sample = samples[i];
        assert(samples@[i as int].index < keypoints@.len());
        let related = &keypoints[sample.index].related;
        let mut k: usize = 0;
        while k < related.len()
            invariant
                i < samples.len(),
                k <= related.len(),
                sample == samples@[i as int],
                related@ == keypoints@[sample.index as int].related@,
                forall|j: int| 0 <= j < k ==> !linked(sample.id, #[trigger] related@[j]),
            decreases related.len() - k,
        {
            if sample.id < related[k].id && related[k].position.is_some() {
                assert(linked(
                    samples@[i as int].id,
                    keypoints@[samples@[i as int].index as int].related@[k as int],
                ));
                return false;
            }
            k = k + 1;
        }
        i = i + 1;
    }
    true
}

/// Whether a group can be drawn within its limits.
fn group_has_room(group: &KeypointGroup, settings: &Settings, bounds: FrameBounds) -> (r: bool)
    ensures
        r == group_fits(*group, *settings, bounds),
{
    let samples = collect_samples(&group.keypoints);
    if settings.draw_labels && !settings.defer_labels && !labels_have_room(
        &samples,
        &group.keypoints,
        bounds,
    ) {
        return false;
    }
    if !settings.draw_skeleton || bounds.width >= 1 && bounds.height >= 1 {
        return true;
    }
    match renderer_for_tag(&group.tag) {
        GroupRenderer::GenericRelation => nothing_is_linked(&samples, &group.keypoints),
        GroupRenderer::HandKp21 => samples.len() <= 1,
    }
}

/// Whether an overlay can be drawn within its limits, and how many keypoints it shows.
fn keypoints_with_room(
    groups: &[KeypointGroup],
    keypoints: &Vec<Keypoint>,
    settings: &Settings,
    bounds: FrameBounds,
) -> (r: Option<usize>)
    ensures
        match r {
            Some(count) => overlay_fits(groups@, keypoints@, *settings, bounds) && count
                == keypoint_count(groups@, keypoints@, *settings),
            None => !overlay_fits(groups@, keypoints@, *settings, bounds) || keypoint_count(
                groups@,
                keypoints@,
                *settings,
            ) > usize::MAX,
        },
{
    let prefix = match &settings.semantic_tag {
        Some(prefix) => prefix,
        None => {
            let samples = collect_samples(keypoints);
            let placed: bool = settings.draw_labels && !settings.defer_labels;
            return if placed && !labels_have_room(&samples, keypoints, bounds) {
                None
            } else {
                Some(samples.len())
            };
        },
    };
    let mut count: usize = 0;
    let mut g: usize = 0;
    assert(groups@.take(0) =~= Seq::<KeypointGroup>::empty());
    while g < groups.len()
        invariant
            g <= groups.len(),
            settings.semantic_tag == Some(*prefix),
            count == group_count(groups@.take(g as int), prefix@),
            forall|k: int|
                0 <= k < g && wanted(groups@[k], prefix@) ==> group_fits(
                    #[trigger] groups@[k],
                    *settings,
                    bounds,
                ),
        decreases groups.len() - g,
    {
        proof {
            let next = groups@.take(g + 1);
            assert(next.drop_last() =~= groups@.take(g as int));
            assert(next.last() == groups@[g as int]);
            lemma_group_count_grows(groups@, prefix@, g + 1);
        }
        let group = &groups[g];
        let shown: bool = match &group.tag {
            Some(tag) => has_prefix(tag.as_str(), prefix.as_str()),
            None => false,
        };
        if shown {
            if !group_has_room(group, settings, bounds) {
                assert(!group_fits(groups@[g as int], *settings, bounds));
                return None;
            }
            let more: usize = collect_samples(&group.keypoints).len();
            match count.checked_add(more) {
                Some(sum) => {
                    count = sum;
                },
                None => {
                    return None;
                },
            }
        }
        g = g + 1;
    }
    assert(groups@.take(g as int) =~= groups@);
    Some(count)
}

/// Whether [`analytics_to_overlay`] can draw these keypoints: their labels and the regions
/// that are reserved stay within the numbers that are computed with, and a skeleton's lines
/// have a frame with pixels to lie in.
pub fn overlay_has_room(
    groups: &[KeypointGroup],
    keypoints: &Vec<Keypoint>,
    claims: &Option<ClaimMeta>,
    settings: &Settings,
    bounds: FrameBounds,
) -> (r: bool)
    ensures
        r == ({
            let count = keypoint_count(groups@, keypoints@, *settings);
            let regions = crate::coordination::claims_on(*claims).len() + 2 * count;
            &&& overlay_fits(groups@, keypoints@, *settings, bounds)
            &&& regions <= usize::MAX
            &&& crate::geometry::frame_takes(
                Rect::of(0, 0, bounds.width as int, bounds.height as int),
                regions,
            )
        }),
{
    let claimed: usize = claimed_regions(claims).len();
    match keypoints_with_room(groups, keypoints, settings, bounds) {
        Some(count) => match count.checked_mul(2) {
            Some(own) => match claimed.checked_add(own) {
                Some(regions) => frame_has_room(bounds.width, bounds.height, regions),
                None => false,
            },
            None => false,
        },
        None => false,
    }
}

/// Build the keypoints overlay of a frame: anchored draw commands (markers and
/// skeleton) plus, depending on [`Settings::defer_labels`], either placed label
/// commands (local mode) or a list of deferred [`LabelIntent`]s for a downstream
/// compositor (defer mode; the returned commands then contain no labels).
///
/// With [`Settings::semantic_tag`] set, the groups whose tag begins with it are drawn;
/// without it, `keypoints` are, each with its own label and without a skeleton.
pub fn analytics_to_overlay(
    groups: &[KeypointGroup],
    keypoints: &Vec<Keypoint>,
    claims: &Option<ClaimMeta>,
    settings: &Settings,
    bounds: FrameBounds,
) -> (r: (AnalyticsFrame, Vec<DrawCommand>, Vec<LabelIntent>))
    requires
        overlay_fits(groups@, keypoints@, *settings, bounds),
        keypoint_count(groups@, keypoints@, *settings) <= usize::MAX,
        crate::geometry::frame_takes(
            Rect::of(0, 0, bounds.width as int, bounds.height as int),
            crate::coordination::claims_on(*claims).len() + 2 * keypoint_count(
                groups@,
                keypoints@,
                *settings,
            ),
        ),
    ensures
        r.0.keypoint_count == keypoint_count(groups@, keypoints@, *settings),
        r.0.object_count == 0,
        r.0.segment_count == 0,
        r.0.semantic_tag is None,
        ({
            let overlay = overlay_of(
                groups@,
                keypoints@,
                crate::coordination::claims_on(*claims),
                *settings,
                bounds,
            );
            &&& r.1@ == overlay.commands
            &&& crate::overlay_intent::intents(r.2@) == overlay.deferred
        }),
{
    let mut commands: Vec<DrawCommand> = Vec::new();
    let mut deferred: Vec<LabelIntent> = Vec::new();
    let mut count: usize = 0;
    let mut occupied = OccupiedRegionRegistry::new(bounds.width, bounds.height);
    // Avoid regions other elements claimed at our priority or higher; lower-
    // priority claims are left out so we draw over them.
    seed_registry_from_claims(&mut occupied, claims, OVERLAY_OWNER, settings.priority);
    let ghost start = Canvas {
        occupied: occupied@,
        commands: Seq::empty(),
        deferred: Seq::empty(),
    };
    let ghost claimed = crate::coordination::claims_on(*claims).len();
    let ghost total = keypoint_count(groups@, keypoints@, *settings);
    assert(commands@ =~= start.commands);
    assert(crate::overlay_intent::intents(deferred@) =~= start.deferred);
    match &settings.semantic_tag {
        Some(prefix) => {
            let mut g: usize = 0;
            assert(groups@.take(0) =~= Seq::<KeypointGroup>::empty());
            while g < groups.len()
                invariant
                    g <= groups.len(),
                    settings.semantic_tag == Some(*prefix),
                    overlay_fits(groups@, keypoints@, *settings, bounds),
                    total == group_count(groups@, prefix@),
                    total <= usize::MAX,
                    crate::geometry::frame_takes(occupied@.frame, claimed + 2 * total),
                    count == group_count(groups@.take(g as int), prefix@),
                    occupied@.sound(),
                    occupied@.regions.len() <= claimed + 2 * count,
                    drawn_from(
                        occupied@,
                        commands@,
                        deferred@,
                        with_groups(start, groups@.take(g as int), prefix@, *settings, bounds),
                    ),
                decreases groups.len() - g,
            {
                proof {
                    let next = groups@.take(g + 1);
                    assert(next.drop_last() =~= groups@.take(g as int));
                    assert(next.last() == groups@[g as int]);
                    lemma_group_count_grows(groups@, prefix@, g + 1);
                }
                let chosen: bool = match &groups[g].tag {
                    Some(tag) => has_prefix(tag.as_str(), prefix.as_str()),
                    None => false,
                };
                if chosen {
                    proof {
                        crate::geometry::lemma_frame_takes_fewer(
                            occupied@.frame,
                            claimed + 2 * total,
                            occupied@.regions.len() + 2 * samples_of(
                                groups@[g as int].keypoints@,
                            ).len(),
                        );
                    }
                    let drawn: usize = push_group(
                        &mut commands,
                        &mut occupied,
                        &mut deferred,
                        &groups[g],
                        settings,
                        bounds,
                    );
                    count = count + drawn;
                }
                g = g + 1;
            }
            assert(groups@.take(g as int) =~= groups@);
        },
        None => {
            let samples = collect_samples(keypoints);
            count = samples.len();
            proof {
                crate::geometry::lemma_frame_takes_fewer(
                    occupied@.frame,
                    claimed + 2 * total,
                    occupied@.regions.len() + 2 * samples@.len(),
                );
            }
            push_keypoints(
                &mut commands,
                &mut occupied,
                &mut deferred,
                &samples,
                keypoints,
                false,
                settings,
                bounds,
            );
        },
    }
    let frame = AnalyticsFrame {
        object_count: 0,
        segment_count: 0,
        keypoint_count: count,
        semantic_tag: None,
    };
    (frame, commands, deferred)
}

/// A deferred label goes where it would have been placed here: among the same regions a
/// compositor finds the same place for it, and draws the same commands.
pub proof fn law_deferred_label_is_placed_alike(
    o: crate::geometry::Occupancy,
    before: crate::placement::Drawn,
    sample: KeypointSample,
    keypoint: Keypoint,
    settings: Settings,
    intent: LabelIntent,
)
    requires
        intent@ == label_intent(sample, keypoint, settings),
        intent.text == keypoint.confidence,
        0 <= keypoint.label_width,
        i32::MIN <= sample.x - keypoint.label_width,
        sample.x + keypoint.label_width <= i32::MAX,
        i32::MIN <= sample.y - LABEL_LAYOUT_HEIGHT - LABEL_LAYOUT_GAP,
    ensures
        crate::placement::placement_of(
            o,
            intent.preferred,
            crate::placement::candidates_of(intent.kind, intent.anchor, intent.preferred),
        ) == label_placement(o, sample, keypoint.label_width as int),
        label_placement(o, sample, keypoint.label_width as int) matches Some(placement)
            ==> before.with_label(intent, Some(placement)).commands == before.commands
            + label_commands(sample, keypoint.confidence, placement, settings.labels_color),
{
    let w = keypoint.label_width as int;
    assert(intent.preferred == default_rect(sample, w));
    assert(intent.anchor == point_rect(sample));
    assert(intent.anchor.middle() == (sample.x as int, sample.y as int));
    assert(intent.preferred.right - intent.preferred.left == w);
    assert(intent.preferred.bottom - intent.preferred.top == LABEL_LAYOUT_HEIGHT);
    if let Some(placement) = label_placement(o, sample, w) {
        assert(before.with_label(intent, Some(placement)).commands =~= before.commands
            + label_commands(sample, keypoint.confidence, placement, settings.labels_color));
    }
}

/// The commands draw markers and lines only, no text.
pub open spec fn textless(commands: Seq<DrawCommand>) -> bool {
    forall|i: int|
        0 <= i < commands.len() ==> (#[trigger] commands[i] is Circle || commands[i] is Line)
}

proof fn lemma_markers_are_textless(
    canvas: Canvas,
    samples: Seq<KeypointSample>,
    settings: Settings,
    bounds: FrameBounds,
)
    requires
        textless(canvas.commands),
    ensures
        textless(with_markers(canvas, samples, settings, bounds).commands),
        with_markers(canvas, samples, settings, bounds).deferred == canvas.deferred,
    decreases samples.len(),
{
    if samples.len() > 0 {
        lemma_markers_are_textless(canvas, samples.drop_last(), settings, bounds);
    }
}

proof fn lemma_keypoints_are_textless(
    canvas: Canvas,
    samples: Seq<KeypointSample>,
    keypoints: Seq<Keypoint>,
    label_once: bool,
    settings: Settings,
    bounds: FrameBounds,
)
    requires
        textless(canvas.commands),
        settings.defer_labels || !settings.draw_labels,
    ensures
        textless(
            with_keypoints(canvas, samples, keypoints, label_once, settings, bounds).commands,
        ),
        !settings.draw_labels ==> with_keypoints(
            canvas,
            samples,
            keypoints,
            label_once,
            settings,
            bounds,
        ).deferred == canvas.deferred,
{
    lemma_markers_are_textless(canvas, samples, settings, bounds);
    let marked = with_markers(canvas, samples, settings, bounds);
    if settings.draw_labels {
        lemma_deferring_draws_nothing(marked, samples, keypoints, settings, bounds);
    }
}

proof fn lemma_deferring_draws_nothing(
    canvas: Canvas,
    samples: Seq<KeypointSample>,
    keypoints: Seq<Keypoint>,
    settings: Settings,
    bounds: FrameBounds,
)
    requires
        settings.defer_labels,
    ensures
        with_labels(canvas, samples, keypoints, settings, bounds).commands == canvas.commands,
    decreases samples.len(),
{
    if samples.len() > 0 {
        lemma_deferring_draws_nothing(canvas, samples.drop_last(), keypoints, settings, bounds);
    }
}

proof fn lemma_sample_lines_are_textless(
    sample: KeypointSample,
    related: Seq<RelatedKeypoint>,
    settings: Settings,
    bounds: FrameBounds,
)
    ensures
        textless(sample_lines(sample, related, settings, bounds)),
    decreases related.len(),
{
    if related.len() > 0 {
        lemma_sample_lines_are_textless(sample, related.drop_last(), settings, bounds);
    }
}

proof fn lemma_relation_lines_are_textless(
    samples: Seq<KeypointSample>,
    keypoints: Seq<Keypoint>,
    settings: Settings,
    bounds: FrameBounds,
)
    ensures
        textless(relation_lines(samples, keypoints, settings, bounds)),
    decreases samples.len(),
{
    if samples.len() > 0 {
        let sample = samples.last();
        lemma_relation_lines_are_textless(samples.drop_last(), keypoints, settings, bounds);
        lemma_sample_lines_are_textless(
            sample,
            keypoints[sample.index as int].related@,
            settings,
            bounds,
        );
    }
}

proof fn lemma_hand_lines_are_textless(
    samples: Seq<KeypointSample>,
    n: nat,
    settings: Settings,
    bounds: FrameBounds,
)
    ensures
        textless(hand_lines(samples, n, settings, bounds)),
    decreases n,
{
    if n > 0 {
        lemma_hand_lines_are_textless(samples, (n - 1) as nat, settings, bounds);
    }
}

proof fn lemma_groups_are_textless(
    canvas: Canvas,
    groups: Seq<KeypointGroup>,
    prefix: Seq<char>,
    settings: Settings,
    bounds: FrameBounds,
)
    requires
        textless(canvas.commands),
        settings.defer_labels || !settings.draw_labels,
    ensures
        textless(with_groups(canvas, groups, prefix, settings, bounds).commands),
        !settings.draw_labels ==> with_groups(canvas, groups, prefix, settings, bounds).deferred
            == canvas.deferred,
    decreases groups.len(),
{
    if groups.len() > 0 {
        lemma_groups_are_textless(canvas, groups.drop_last(), prefix, settings, bounds);
        let before = with_groups(canvas, groups.drop_last(), prefix, settings, bounds);
        let keypoints = groups.last().keypoints@;
        let samples = samples_of(keypoints);
        lemma_keypoints_are_textless(before, samples, keypoints, true, settings, bounds);
        lemma_relation_lines_are_textless(samples, keypoints, settings, bounds);
        lemma_hand_lines_are_textless(samples, 21, settings, bounds);
    }
}

/// In defer mode the commands contain no labels: they draw markers and lines only. Without
/// labels there are none, deferred or drawn.
pub proof fn law_deferred_labels_are_not_drawn(
    groups: Seq<KeypointGroup>,
    keypoints: Seq<Keypoint>,
    claims: Seq<crate::coordination::Claim>,
    settings: Settings,
    bounds: FrameBounds,
)
    requires
        settings.defer_labels || !settings.draw_labels,
    ensures
        textless(overlay_of(groups, keypoints, claims, settings, bounds).commands),
        !settings.draw_labels ==> overlay_of(
            groups,
            keypoints,
            claims,
            settings,
            bounds,
        ).deferred.len() == 0,
{
    let start = Canvas {
        occupied: crate::coordination::seeded(
            crate::geometry::Occupancy::fresh(bounds.width as int, bounds.height as int),
            claims,
            Some(OVERLAY_OWNER@),
            settings.priority,
        ),
        commands: Seq::empty(),
        deferred: Seq::empty(),
    };
    match settings.semantic_tag {
        Some(prefix) => lemma_groups_are_textless(start, groups, prefix@, settings, bounds),
        None => lemma_keypoints_are_textless(
            start,
            samples_of(keypoints),
            keypoints,
            false,
            settings,
            bounds,
        ),
    }
}

proof fn lemma_placing_defers_nothing(
    canvas: Canvas,
    samples: Seq<KeypointSample>,
    keypoints: Seq<Keypoint>,
    settings: Settings,
    bounds: FrameBounds,
)
    requires
        !settings.defer_labels,
    ensures
        with_markers(canvas, samples, settings, bounds).deferred == canvas.deferred,
        with_labels(canvas, samples, keypoints, settings, bounds).deferred == canvas.deferred,
    decreases samples.len(),
{
    if samples.len() > 0 {
        lemma_placing_defers_nothing(canvas, samples.drop_last(), keypoints, settings, bounds);
    }
}

proof fn lemma_groups_defer_nothing(
    canvas: Canvas,
    groups: Seq<KeypointGroup>,
    prefix: Seq<char>,
    settings: Settings,
    bounds: FrameBounds,
)
    requires
        !settings.defer_labels,
    ensures
        with_groups(canvas, groups, prefix, settings, bounds).deferred == canvas.deferred,
    decreases groups.len(),
{
    if groups.len() > 0 {
        lemma_groups_defer_nothing(canvas, groups.drop_last(), prefix, settings, bounds);
        let before = with_groups(canvas, groups.drop_last(), prefix, settings, bounds);
        let keypoints = groups.last().keypoints@;
        let samples = samples_of(keypoints);
        lemma_placing_defers_nothing(before, samples, keypoints, settings, bounds);
    }
}

/// Where labels are placed here, none is left to a compositor.
pub proof fn law_placed_labels_are_not_deferred(
    groups: Seq<KeypointGroup>,
    keypoints: Seq<Keypoint>,
    claims: Seq<crate::coordination::Claim>,
    settings: Settings,
    bounds: FrameBounds,
)
    requires
        !settings.defer_labels,
    ensures
        overlay_of(groups, keypoints, claims, settings, bounds).deferred.len() == 0,
{
    let start = Canvas {
        occupied: crate::coordination::seeded(
            crate::geometry::Occupancy::fresh(bounds.width as int, bounds.height as int),
            claims,
            Some(OVERLAY_OWNER@),
            settings.priority,
        ),
        commands: Seq::empty(),
        deferred: Seq::empty(),
    };
    match settings.semantic_tag {
        Some(prefix) => lemma_groups_defer_nothing(start, groups, prefix@, settings, bounds),
        None => {
            let samples = samples_of(keypoints);
            lemma_placing_defers_nothing(start, samples, keypoints, settings, bounds);
            lemma_placing_defers_nothing(
                with_markers(start, samples, settings, bounds),
                samples,
                keypoints,
                settings,
                bounds,
            );
        },
    }
}

/// The squares of the markers that are drawn.
pub open spec fn marker_rects(
    samples: Seq<KeypointSample>,
    settings: Settings,
    bounds: FrameBounds,
) -> Seq<Rect>
    decreases samples.len(),
{
    if samples.len() == 0 {
        Seq::empty()
    } else {
        let before = marker_rects(samples.drop_last(), settings, bounds);
        let sample = samples.last();
        if bounds.holds(sample.x as int, sample.y as int) {
            before.push(marker_rect(sample, settings.keypoint_reach as int))
        } else {
            before
        }
    }
}

/// Markers are drawn for the keypoints in the frame and for no others, and they are
/// reserved like any highlights.
pub proof fn law_markers_are_highlights(
    canvas: Canvas,
    samples: Seq<KeypointSample>,
    settings: Settings,
    bounds: FrameBounds,
)
    ensures
        with_markers(canvas, samples, settings, bounds).occupied == crate::placement::highlighted(
            canvas.occupied,
            marker_rects(samples, settings, bounds),
        ),
        with_markers(canvas, samples, settings, bounds).commands.len() == canvas.commands.len()
            + marker_rects(samples, settings, bounds).len(),
    decreases samples.len(),
{
    if samples.len() > 0 {
        law_markers_are_highlights(canvas, samples.drop_last(), settings, bounds);
        let before = marker_rects(samples.drop_last(), settings, bounds);
        let sample = samples.last();
        if bounds.holds(sample.x as int, sample.y as int) {
            let rect = marker_rect(sample, settings.keypoint_reach as int);
            assert(before.push(rect).drop_last() =~= before);
        }
    }
}

/// Where the label of the sample at `m` goes, after those of the samples ahead of it; none
/// for a sample outside the frame.
pub open spec fn placed_label(
    marked: Canvas,
    samples: Seq<KeypointSample>,
    keypoints: Seq<Keypoint>,
    settings: Settings,
    bounds: FrameBounds,
    m: int,
) -> Option<LabelPlacement> {
    if bounds.holds(samples[m].x as int, samples[m].y as int) {
        label_placement(
            with_labels(marked, samples.take(m), keypoints, settings, bounds).occupied,
            samples[m],
            keypoints[samples[m].index as int].label_width as int,
        )
    } else {
        None
    }
}

/// The position shares no pixel of the frame with the label of one of the first `n` samples.
pub open spec fn misses_labels(
    marked: Canvas,
    samples: Seq<KeypointSample>,
    keypoints: Seq<Keypoint>,
    settings: Settings,
    bounds: FrameBounds,
    n: int,
    position: Rect,
) -> bool {
    forall|m: int|
        0 <= m < n ==> (#[trigger] placed_label(
            marked,
            samples,
            keypoints,
            settings,
            bounds,
            m,
        ) matches Some(placement) ==> crate::placement::misses(
            marked.occupied.frame,
            position,
            placement.rect,
        ))
}

/// Placed labels leave just those positions clear that miss all of them.
pub proof fn law_clear_positions_miss_labels(
    marked: Canvas,
    samples: Seq<KeypointSample>,
    keypoints: Seq<Keypoint>,
    settings: Settings,
    bounds: FrameBounds,
    n: int,
    position: Rect,
)
    requires
        marked.occupied.sound(),
        !settings.defer_labels,
        0 <= n <= samples.len(),
    ensures
        ({
            let o = with_labels(marked, samples.take(n), keypoints, settings, bounds).occupied;
            &&& o.sound()
            &&& o.frame == marked.occupied.frame
            &&& crate::placement::clear(o, position) == (crate::placement::clear(
                marked.occupied,
                position,
            ) && misses_labels(marked, samples, keypoints, settings, bounds, n, position))
        }),
    decreases n,
{
    if n > 0 {
        let taken = samples.take(n);
        law_clear_positions_miss_labels(
            marked,
            samples,
            keypoints,
            settings,
            bounds,
            n - 1,
            position,
        );
        assert(taken.drop_last() =~= samples.take(n - 1));
        assert(taken[n - 1] == samples[n - 1]);
        let before = with_labels(marked, samples.take(n - 1), keypoints, settings, bounds);
        if let Some(placement) = placed_label(
            marked,
            samples,
            keypoints,
            settings,
            bounds,
            n - 1,
        ) {
            crate::placement::lemma_clear_with_region(
                before.occupied,
                crate::geometry::RegionPriority::Label,
                placement.rect,
                position,
            );
        }
    }
}

/// Nothing obstructs the position: it was clear on the canvas, and it shares no pixel of the
/// frame with a marker of the list, nor with the label of one of the first `n` samples.
pub open spec fn unobstructed(
    canvas: Canvas,
    samples: Seq<KeypointSample>,
    keypoints: Seq<Keypoint>,
    settings: Settings,
    bounds: FrameBounds,
    n: int,
    position: Rect,
) -> bool {
    let rects = marker_rects(samples, settings, bounds);
    let marked = with_markers(canvas, samples, settings, bounds);
    &&& crate::placement::clear(canvas.occupied, position)
    &&& forall|i: int|
        0 <= i < rects.len() ==> crate::placement::misses(
            canvas.occupied.frame,
            position,
            #[trigger] rects[i],
        )
    &&& misses_labels(marked, samples, keypoints, settings, bounds, n, position)
}

/// The clear positions of a label, after those of the first `n` samples, are those that
/// nothing obstructs. Before anything is drawn, the clear ones are the visible ones that
/// miss the hard content of other elements.
pub proof fn law_clear_means_unobstructed(
    canvas: Canvas,
    samples: Seq<KeypointSample>,
    keypoints: Seq<Keypoint>,
    claims: Seq<crate::coordination::Claim>,
    settings: Settings,
    bounds: FrameBounds,
    n: int,
    position: Rect,
)
    requires
        canvas.occupied.sound(),
        !settings.defer_labels,
        0 <= n <= samples.len(),
    ensures
        crate::placement::clear(
            with_labels(
                with_markers(canvas, samples, settings, bounds),
                samples.take(n),
                keypoints,
                settings,
                bounds,
            ).occupied,
            position,
        ) == unobstructed(canvas, samples, keypoints, settings, bounds, n, position),
        ({
            let frame = Rect::of(0, 0, bounds.width as int, bounds.height as int);
            let owner = Some(OVERLAY_OWNER@);
            crate::placement::clear(
                crate::coordination::seeded(
                    crate::geometry::Occupancy::fresh(bounds.width as int, bounds.height as int),
                    claims,
                    owner,
                    settings.priority,
                ),
                position,
            ) == (position.common(frame) is Some && crate::coordination::misses_claims(
                frame,
                claims,
                owner,
                settings.priority,
                position,
            ))
        }),
{
    let fresh = crate::geometry::Occupancy::fresh(bounds.width as int, bounds.height as int);
    let rects = marker_rects(samples, settings, bounds);
    let marked = with_markers(canvas, samples, settings, bounds);
    crate::placement::lemma_clear_with_region(
        fresh,
        crate::geometry::RegionPriority::Avoid,
        position,
        position,
    );
    crate::coordination::law_clear_positions_miss_respected_claims(
        fresh,
        claims,
        Some(OVERLAY_OWNER@),
        settings.priority,
        position,
    );
    law_markers_are_highlights(canvas, samples, settings, bounds);
    crate::placement::law_clear_positions_miss_highlights(canvas.occupied, rects, position);
    law_clear_positions_miss_labels(marked, samples, keypoints, settings, bounds, n, position);
}

/// The label of a sample in the frame that has an unobstructed position, be it its default
/// or one of the candidates around the keypoint, is placed in such a one. So it is drawn on
/// no marker of its list: neither its own, nor one drawn later, nor one that overlaps
/// another.
pub proof fn law_labels_take_unobstructed_positions(
    canvas: Canvas,
    samples: Seq<KeypointSample>,
    keypoints: Seq<Keypoint>,
    settings: Settings,
    bounds: FrameBounds,
    n: int,
    c: int,
)
    requires
        canvas.occupied.sound(),
        !settings.defer_labels,
        0 <= n < samples.len(),
        bounds.holds(samples[n].x as int, samples[n].y as int),
        ({
            let w = keypoints[samples[n].index as int].label_width as int;
            let positions = crate::placement::positions_of(
                default_rect(samples[n], w),
                crate::placement::point_candidates(
                    samples[n].x as int,
                    samples[n].y as int,
                    w,
                    LABEL_LAYOUT_HEIGHT as int,
                ),
            );
            &&& 0 <= c < positions.len()
            &&& unobstructed(canvas, samples, keypoints, settings, bounds, n, positions[c])
        }),
    ensures
        placed_label(
            with_markers(canvas, samples, settings, bounds),
            samples,
            keypoints,
            settings,
            bounds,
            n,
        ) matches Some(placement) && unobstructed(
            canvas,
            samples,
            keypoints,
            settings,
            bounds,
            n,
            placement.rect,
        ),
{
    let w = keypoints[samples[n].index as int].label_width as int;
    let default = default_rect(samples[n], w);
    let candidates = crate::placement::point_candidates(
        samples[n].x as int,
        samples[n].y as int,
        w,
        LABEL_LAYOUT_HEIGHT as int,
    );
    let marked = with_markers(canvas, samples, settings, bounds);
    let before = with_labels(marked, samples.take(n), keypoints, settings, bounds).occupied;
    law_clear_means_unobstructed(
        canvas,
        samples,
        keypoints,
        Seq::empty(),
        settings,
        bounds,
        n,
        crate::placement::positions_of(default, candidates)[c],
    );
    crate::placement::law_best_clear_position_is_taken(before, default, candidates, c);
    law_clear_means_unobstructed(
        canvas,
        samples,
        keypoints,
        Seq::empty(),
        settings,
        bounds,
        n,
        placed_label(marked, samples, keypoints, settings, bounds, n)->0.rect,
    );
}

/// The one label of a group is placed as the label of its first keypoint in the frame is
/// where every keypoint has one: no label stands ahead of it.
pub proof fn law_group_label_is_the_first(
    marked: Canvas,
    samples: Seq<KeypointSample>,
    keypoints: Seq<Keypoint>,
    settings: Settings,
    bounds: FrameBounds,
    n: int,
)
    requires
        first_in_frame(samples, bounds, n),
    ensures
        with_labels(marked, samples.take(n), keypoints, settings, bounds) == marked,
        placed_label(marked, samples, keypoints, settings, bounds, n) == label_placement(
            marked.occupied,
            samples[n],
            keypoints[samples[n].index as int].label_width as int,
        ),
{
    lemma_labels_outside_are_left_out(marked, samples.take(n), keypoints, settings, bounds);
}

proof fn lemma_labels_outside_are_left_out(
    marked: Canvas,
    samples: Seq<KeypointSample>,
    keypoints: Seq<Keypoint>,
    settings: Settings,
    bounds: FrameBounds,
)
    requires
        forall|k: int|
            0 <= k < samples.len() ==> !bounds.holds(
                #[trigger] samples[k].x as int,
                samples[k].y as int,
            ),
    ensures
        with_labels(marked, samples, keypoints, settings, bounds) == marked,
    decreases samples.len(),
{
    if samples.len() > 0 {
        let rest = samples.drop_last();
        assert forall|k: int| 0 <= k < rest.len() implies !bounds.holds(
            #[trigger] rest[k].x as int,
            rest[k].y as int,
        ) by {
            assert(rest[k] == samples[k]);
        }
        lemma_labels_outside_are_left_out(marked, rest, keypoints, settings, bounds);
        assert(samples.last() == samples[samples.len() - 1]);
    }
}

/// The bones of a hand run along each finger from joint to joint, from the wrist to the
/// thumb, the index finger and the pinky, and along the knuckles from the index finger to the
/// pinky; each once, and no others.
pub proof fn law_bones_follow_the_fingers(a: usize, b: usize)
    requires
        a < 21,
        b < 21,
    ensures
        HAND_KP_21_BONES@.len() == 21,
        HAND_KP_21_BONES@.contains((a, b)) <==> {
            ||| a % 4 != 0 && b == a + 1
            ||| a == 0 && (b == 1 || b == 5 || b == 17)
            ||| a % 4 == 1 && 5 <= a && b == a + 4
        },
        forall|n: int, m: int|
            0 <= n < m < 21 ==> #[trigger] HAND_KP_21_BONES@[n] != #[trigger] HAND_KP_21_BONES@[m],
{
    let bones = HAND_KP_21_BONES@;
    assert(bones[0] == (0usize, 1usize));
    assert(bones[1] == (1usize, 2usize));
    assert(bones[2] == (2usize, 3usize));
    assert(bones[3] == (3usize, 4usize));
    assert(bones[4] == (0usize, 5usize));
    assert(bones[5] == (5usize, 6usize));
    assert(bones[6] == (6usize, 7usize));
    assert(bones[7] == (7usize, 8usize));
    assert(bones[8] == (5usize, 9usize));
    assert(bones[9] == (9usize, 10usize));
    assert(bones[10] == (10usize, 11usize));
    assert(bones[11] == (11usize, 12usize));
    assert(bones[12] == (9usize, 13usize));
    assert(bones[13] == (13usize, 14usize));
    assert(bones[14] == (14usize, 15usize));
    assert(bones[15] == (15usize, 16usize));
    assert(bones[16] == (13usize, 17usize));
    assert(bones[17] == (17usize, 18usize));
    assert(bones[18] == (18usize, 19usize));
    assert(bones[19] == (19usize, 20usize));
    assert(bones[20] == (0usize, 17usize));
}

/// Every bone of a hand whose keypoints all lie in the frame is drawn, in the order of the
/// bones: the `n`-th line goes from the one keypoint of the `n`-th pair to the other, in the
/// skeleton's color and width.
pub proof fn law_bones_join_their_keypoints(
    samples: Seq<KeypointSample>,
    settings: Settings,
    bounds: FrameBounds,
    n: int,
)
    requires
        samples.len() == 21,
        forall|i: int|
            0 <= i < 21 ==> 0 <= (#[trigger] samples[i]).x < bounds.width && 0 <= samples[i].y
                < bounds.height,
        0 <= n < 21,
    ensures
        hand_lines(samples, 21, settings, bounds).len() == 21,
        ({
            let (a, b) = HAND_KP_21_BONES@[n];
            hand_lines(samples, 21, settings, bounds)[n] == (DrawCommand::Line {
                x0: Scalar::of_int(samples[a as int].x as int),
                y0: Scalar::of_int(samples[a as int].y as int),
                x1: Scalar::of_int(samples[b as int].x as int),
                y1: Scalar::of_int(samples[b as int].y as int),
                argb: settings.skeleton_color,
                width: settings.skeleton_line_width,
            })
        }),
{
    lemma_bones_drawn(samples, settings, bounds, 21, n);
}

proof fn lemma_bones_drawn(
    samples: Seq<KeypointSample>,
    settings: Settings,
    bounds: FrameBounds,
    m: nat,
    n: int,
)
    requires
        samples.len() == 21,
        forall|i: int|
            0 <= i < 21 ==> 0 <= (#[trigger] samples[i]).x < bounds.width && 0 <= samples[i].y
                < bounds.height,
        m <= 21,
    ensures
        hand_lines(samples, m, settings, bounds).len() == m,
        0 <= n < m ==> ({
            let (a, b) = HAND_KP_21_BONES@[n];
            hand_lines(samples, m, settings, bounds)[n] == (DrawCommand::Line {
                x0: Scalar::of_int(samples[a as int].x as int),
                y0: Scalar::of_int(samples[a as int].y as int),
                x1: Scalar::of_int(samples[b as int].x as int),
                y1: Scalar::of_int(samples[b as int].y as int),
                argb: settings.skeleton_color,
                width: settings.skeleton_line_width,
            })
        }),
    decreases m,
{
    if m > 0 {
        lemma_bones_drawn(samples, settings, bounds, (m - 1) as nat, n);
        let (a, b) = HAND_KP_21_BONES@[m - 1];
        assert(a < 21 && b < 21);
        let from = samples[a as int];
        let to = samples[b as int];
        assert(bounds.clamped(from.x as int, from.y as int) == (from.x as int, from.y as int));
        assert(bounds.clamped(to.x as int, to.y as int) == (to.x as int, to.y as int));
    }
}

/// A position that is moved into the frame comes to lie on its pixel that is nearest, on
/// either axis.
pub proof fn law_clamped_positions_are_nearest(
    bounds: FrameBounds,
    x: int,
    y: int,
    px: int,
    py: int,
)
    requires
        0 <= px < bounds.width,
        0 <= py < bounds.height,
    ensures
        ({
            let (cx, cy) = bounds.clamped(x, y);
            &&& 0 <= cx < bounds.width
            &&& 0 <= cy < bounds.height
            &&& -crate::geometry::int_max(px - x, x - px) <= cx - x
                <= crate::geometry::int_max(px - x, x - px)
            &&& -crate::geometry::int_max(py - y, y - py) <= cy - y
                <= crate::geometry::int_max(py - y, y - py)
        }),
{
}

/// A keypoint is joined by a line to each keypoint related to it whose identifier is higher
/// and whose position is known, so that a pair related in both directions is joined once.
pub proof fn law_related_keypoints_are_joined(
    samples: Seq<KeypointSample>,
    keypoints: Seq<Keypoint>,
    settings: Settings,
    bounds: FrameBounds,
    i: int,
    k: int,
)
    requires
        0 <= i < samples.len(),
        0 <= k < keypoints[samples[i].index as int].related@.len(),
        samples[i].id < keypoints[samples[i].index as int].related@[k].id,
        0 <= samples[i].x < bounds.width,
        0 <= samples[i].y < bounds.height,
        keypoints[samples[i].index as int].related@[k].position matches Some((x, y)) && 0 <= x
            < bounds.width && 0 <= y < bounds.height,
    ensures
        relation_lines(samples, keypoints, settings, bounds).contains(
            DrawCommand::Line {
                x0: Scalar::of_int(samples[i].x as int),
                y0: Scalar::of_int(samples[i].y as int),
                x1: Scalar::of_int(
                    (keypoints[samples[i].index as int].related@[k].position->0).0 as int,
                ),
                y1: Scalar::of_int(
                    (keypoints[samples[i].index as int].related@[k].position->0).1 as int,
                ),
                argb: settings.skeleton_color,
                width: settings.skeleton_line_width,
            },
        ),
    decreases samples.len(),
{
    let last = samples.len() - 1;
    let before = relation_lines(samples.drop_last(), keypoints, settings, bounds);
    let sample = samples.last();
    let related = keypoints[sample.index as int].related@;
    let own = sample_lines(sample, related, settings, bounds);
    let all = relation_lines(samples, keypoints, settings, bounds);
    assert(all == before + own);
    if i < last {
        let rest = samples.drop_last();
        assert(rest[i] == samples[i]);
        law_related_keypoints_are_joined(rest, keypoints, settings, bounds, i, k);
        let to = keypoints[samples[i].index as int].related@[k].position->0;
        let line = DrawCommand::Line {
            x0: Scalar::of_int(samples[i].x as int),
            y0: Scalar::of_int(samples[i].y as int),
            x1: Scalar::of_int(to.0 as int),
            y1: Scalar::of_int(to.1 as int),
            argb: settings.skeleton_color,
            width: settings.skeleton_line_width,
        };
        let m = choose|m: int| 0 <= m < before.len() && before[m] == line;
        assert(all[m] == line);
    } else {
        let m = lemma_sample_is_joined(sample, related, settings, bounds, k);
        assert(all[before.len() + m] == own[m]);
        let to = related[k].position->0;
        assert(bounds.clamped(sample.x as int, sample.y as int) == (
            sample.x as int,
            sample.y as int,
        ));
        assert(bounds.clamped(to.0 as int, to.1 as int) == (to.0 as int, to.1 as int));
    }
}

proof fn lemma_sample_is_joined(
    sample: KeypointSample,
    related: Seq<RelatedKeypoint>,
    settings: Settings,
    bounds: FrameBounds,
    k: int,
) -> (m: int)
    requires
        0 <= k < related.len(),
        linked(sample.id, related[k]),
    ensures
        0 <= m < sample_lines(sample, related, settings, bounds).len(),
        sample_lines(sample, related, settings, bounds)[m] == bone_command(
            (sample.x, sample.y),
            related[k].position->0,
            settings,
            bounds,
        ),
    decreases related.len(),
{
    if k < related.len() - 1 {
        assert(related.drop_last()[k] == related[k]);
        lemma_sample_is_joined(sample, related.drop_last(), settings, bounds, k)
    } else {
        sample_lines(sample, related, settings, bounds).len() - 1
    }
}

/// Every line of a skeleton of relations goes from a sample to the known position of a
/// keypoint of a higher identifier that it is related to.
pub proof fn law_lines_join_related_keypoints(
    samples: Seq<KeypointSample>,
    keypoints: Seq<Keypoint>,
    settings: Settings,
    bounds: FrameBounds,
    m: int,
)
    requires
        0 <= m < relation_lines(samples, keypoints, settings, bounds).len(),
    ensures
        exists|i: int, k: int|
            #![trigger keypoints[samples[i].index as int].related@[k]]
            {
                let related = keypoints[samples[i].index as int].related@;
                &&& 0 <= i < samples.len()
                &&& 0 <= k < related.len()
                &&& samples[i].id < related[k].id
                &&& related[k].position matches Some(to)
                &&& relation_lines(samples, keypoints, settings, bounds)[m] == bone_command(
                    (samples[i].x, samples[i].y),
                    to,
                    settings,
                    bounds,
                )
            },
    decreases samples.len(),
{
    let rest = samples.drop_last();
    let before = relation_lines(rest, keypoints, settings, bounds);
    let sample = samples.last();
    let related = keypoints[sample.index as int].related@;
    if m < before.len() {
        law_lines_join_related_keypoints(rest, keypoints, settings, bounds, m);
        let (i, k) = choose|i: int, k: int|
            #![trigger keypoints[rest[i].index as int].related@[k]]
            {
                let related = keypoints[rest[i].index as int].related@;
                &&& 0 <= i < rest.len()
                &&& 0 <= k < related.len()
                &&& rest[i].id < related[k].id
                &&& related[k].position matches Some(to)
                &&& before[m] == bone_command((rest[i].x, rest[i].y), to, settings, bounds)
            };
        assert(rest[i] == samples[i]);
        assert(keypoints[samples[i].index as int].related@[k] == keypoints[rest[i].index as int]
            .related@[k]);
    } else {
        let k = lemma_line_is_joined(sample, related, settings, bounds, m - before.len());
        let i = samples.len() - 1;
        assert(samples[i] == sample);
        assert(keypoints[samples[i].index as int].related@[k] == related[k]);
    }
}

proof fn lemma_line_is_joined(
    sample: KeypointSample,
    related: Seq<RelatedKeypoint>,
    settings: Settings,
    bounds: FrameBounds,
    m: int,
) -> (k: int)
    requires
        0 <= m < sample_lines(sample, related, settings, bounds).len(),
    ensures
        0 <= k < related.len(),
        sample.id < related[k].id,
        related[k].position matches Some(to) && sample_lines(sample, related, settings, bounds)[m]
            == bone_command((sample.x, sample.y), to, settings, bounds),
    decreases related.len(),
{
    let before = sample_lines(sample, related.drop_last(), settings, bounds);
    if m < before.len() {
        let k = lemma_line_is_joined(sample, related.drop_last(), settings, bounds, m);
        assert(related.drop_last()[k] == related[k]);
        k
    } else {
        related.len() - 1
    }
}

/// The samples are the keypoints whose position is known: each names the keypoint that it
/// stands for, has its identifier and position, and comes behind those of earlier keypoints;
/// no such keypoint is left out.
pub proof fn law_samples_are_the_known_keypoints(keypoints: Seq<Keypoint>)
    requires
        keypoints.len() <= usize::MAX,
    ensures
        forall|i: int|
            0 <= i < samples_of(keypoints).len() ==> (#[trigger] samples_of(keypoints)[i]).index
                < keypoints.len() && keypoints[samples_of(keypoints)[i].index as int].position
                == Some((samples_of(keypoints)[i].x, samples_of(keypoints)[i].y))
                && keypoints[samples_of(keypoints)[i].index as int].id == samples_of(
                keypoints,
            )[i].id,
        forall|i: int, j: int|
            0 <= i < j < samples_of(keypoints).len() ==> (#[trigger] samples_of(
                keypoints,
            )[i]).index < (#[trigger] samples_of(keypoints)[j]).index,
        forall|n: int|
            #![trigger keypoints[n]]
            0 <= n < keypoints.len() && keypoints[n].position is Some ==> exists|i: int|
                0 <= i < samples_of(keypoints).len() && (#[trigger] samples_of(keypoints)[i]).index
                    == n,
    decreases keypoints.len(),
{
    if keypoints.len() > 0 {
        let rest = keypoints.drop_last();
        law_samples_are_the_known_keypoints(rest);
        let before = samples_of(rest);
        let all = samples_of(keypoints);
        let last = keypoints.len() - 1;
        assert forall|i: int| 0 <= i < all.len() implies (#[trigger] all[i]).index
            < keypoints.len() && keypoints[all[i].index as int].position == Some(
            (all[i].x, all[i].y),
        ) && keypoints[all[i].index as int].id == all[i].id by {
            if i < before.len() {
                assert(all[i] == before[i]);
                assert(rest[before[i].index as int] == keypoints[before[i].index as int]);
            }
        }
        assert forall|i: int, j: int| 0 <= i < j < all.len() implies (#[trigger] all[i]).index < (
        #[trigger] all[j]).index by {
            assert(all[i] == before[i]);
            if j < before.len() {
                assert(all[j] == before[j]);
            }
        }
        assert forall|n: int|
            #![trigger keypoints[n]]
            0 <= n < keypoints.len() && keypoints[n].position is Some implies exists|i: int|
            0 <= i < all.len() && (#[trigger] all[i]).index == n by {
            if n < last {
                assert(rest[n] == keypoints[n]);
                let i = choose|i: int| 0 <= i < before.len() && (#[trigger] before[i]).index == n;
                assert(all[i] == before[i]);
            } else {
                assert(all[before.len() as int].index == n);
            }
        }
    }
}

/// A keypoint in the frame is marked where it lies: by a circle around its position, with
/// the configured radius and color. The square that is kept free for it is centered there
/// and reaches as far to all sides as the circle does in whole pixels.
pub proof fn law_markers_lie_on_their_keypoints(
    canvas: Canvas,
    samples: Seq<KeypointSample>,
    settings: Settings,
    bounds: FrameBounds,
    i: int,
)
    requires
        0 <= i < samples.len(),
        0 <= samples[i].x < bounds.width,
        0 <= samples[i].y < bounds.height,
    ensures
        with_markers(canvas, samples, settings, bounds).commands.contains(
            DrawCommand::Circle {
                cx: Scalar::of_int(samples[i].x as int),
                cy: Scalar::of_int(samples[i].y as int),
                radius: settings.keypoint_radius,
                argb: settings.keypoint_color,
            },
        ),
        marker_rects(samples, settings, bounds).contains(
            marker_rect(samples[i], settings.keypoint_reach as int),
        ),
        ({
            let rect = marker_rect(samples[i], settings.keypoint_reach as int);
            let reach = settings.keypoint_reach as int;
            0 <= reach && samples[i].x + reach < i32::MAX && samples[i].y + reach < i32::MAX && 2
                * reach < i32::MAX ==> {
                &&& rect.left == samples[i].x - reach
                &&& rect.right == samples[i].x + reach + 1
                &&& rect.top == samples[i].y - reach
                &&& rect.bottom == samples[i].y + reach + 1
            }
        }),
    decreases samples.len(),
{
    let rest = samples.drop_last();
    let before = with_markers(canvas, rest, settings, bounds).commands;
    let all = with_markers(canvas, samples, settings, bounds).commands;
    let rects = marker_rects(rest, settings, bounds);
    let more = marker_rects(samples, settings, bounds);
    let circle = marker_command(samples[i], settings);
    let rect = marker_rect(samples[i], settings.keypoint_reach as int);
    if i < samples.len() - 1 {
        assert(rest[i] == samples[i]);
        law_markers_lie_on_their_keypoints(canvas, rest, settings, bounds, i);
        let m = choose|m: int| 0 <= m < before.len() && before[m] == circle;
        assert(all[m] == circle);
        let r = choose|r: int| 0 <= r < rects.len() && rects[r] == rect;
        assert(more[r] == rect);
    } else {
        assert(samples.last() == samples[i]);
        assert(all[before.len() as int] == circle);
        assert(more[rects.len() as int] == rect);
    }
}

/// The preferred place of a keypoint's label is above the keypoint, centered on it as far as
/// whole pixels go, with a gap between: it does not reach down to the keypoint.
pub proof fn law_labels_are_preferred_above(sample: KeypointSample, label_w: int)
    requires
        0 <= label_w,
        i32::MIN <= sample.x - label_w,
        sample.x + label_w <= i32::MAX,
        i32::MIN <= sample.y - LABEL_LAYOUT_HEIGHT - LABEL_LAYOUT_GAP,
    ensures
        ({
            let rect = default_rect(sample, label_w);
            &&& rect.right - rect.left == label_w
            &&& rect.bottom - rect.top == LABEL_LAYOUT_HEIGHT
            &&& 0 <= rect.left + rect.right - 2 * sample.x <= 1
            &&& rect.bottom + LABEL_LAYOUT_GAP == sample.y
        }),
{
}

/// A placed label is written in the middle of its place; one that was moved from its
/// preferred place has a line from its keypoint to it.
pub proof fn law_labels_are_written_in_their_place(
    sample: KeypointSample,
    text: String,
    placement: LabelPlacement,
    argb: u32,
)
    ensures
        ({
            let commands = label_commands(sample, text, placement, argb);
            &&& commands.len() == if placement.displaced {
                2int
            } else {
                1
            }
            &&& commands.last() matches DrawCommand::TextCentered { x, y, text: t, argb: c } && t
                == text && c == argb && x == Scalar::of_int(placement.rect.middle().0) && y
                == Scalar::of_int(placement.rect.middle().1)
            &&& placement.displaced ==> commands[0] is Line
        }),
{
}

/// Just the keypoints in the frame are marked, in their order, behind what was drawn before;
/// `places` tells which. Each is marked by a circle of the configured radius and colour
/// around its position, and has a square reserved. No label is deferred thereby.
pub proof fn law_just_the_keypoints_in_the_frame_are_marked(
    canvas: Canvas,
    samples: Seq<KeypointSample>,
    settings: Settings,
    bounds: FrameBounds,
) -> (places: Seq<int>)
    ensures
        crate::coordination::walks(places, samples.len() as int),
        forall|k: int|
            0 <= k < samples.len() ==> places.contains(k) == (0 <= (#[trigger] samples[k]).x
                < bounds.width && 0 <= samples[k].y < bounds.height),
        ({
            let marked = with_markers(canvas, samples, settings, bounds);
            let n = canvas.commands.len() as int;
            &&& marked.deferred == canvas.deferred
            &&& marked.commands.len() == n + places.len()
            &&& marker_rects(samples, settings, bounds).len() == places.len()
            &&& forall|i: int| 0 <= i < n ==> #[trigger] marked.commands[i] == canvas.commands[i]
            &&& forall|j: int|
                #![trigger places[j]]
                0 <= j < places.len() ==> marked.commands[n + j] == (DrawCommand::Circle {
                    cx: Scalar::of_int(samples[places[j]].x as int),
                    cy: Scalar::of_int(samples[places[j]].y as int),
                    radius: settings.keypoint_radius,
                    argb: settings.keypoint_color,
                })
        }),
    decreases samples.len(),
{
    if samples.len() == 0 {
        Seq::empty()
    } else {
        let rest = samples.drop_last();
        let n = rest.len() as int;
        let before = law_just_the_keypoints_in_the_frame_are_marked(
            canvas,
            rest,
            settings,
            bounds,
        );
        assert(forall|k: int| 0 <= k < n ==> rest[k] == samples[k]);
        crate::coordination::lemma_walk_goes_on(before, n);
        let places = if 0 <= samples[n].x < bounds.width && 0 <= samples[n].y < bounds.height {
            before.push(n)
        } else {
            before
        };
        assert forall|k: int| 0 <= k < samples.len() implies places.contains(k) == (0 <= (
        #[trigger] samples[k]).x < bounds.width && 0 <= samples[k].y < bounds.height) by {
            if k < n {
                assert(rest[k] == samples[k]);
                if places.contains(k) {
                    let i = choose|i: int| 0 <= i < places.len() && places[i] == k;
                    assert(before[i] == k);
                }
            }
        }
        let marked = with_markers(canvas, samples, settings, bounds);
        let was = with_markers(canvas, rest, settings, bounds);
        let m = canvas.commands.len() as int;
        assert forall|i: int| 0 <= i < m implies #[trigger] marked.commands[i]
            == canvas.commands[i] by {
            assert(was.commands[i] == canvas.commands[i]);
        }
        assert forall|j: int| #![trigger places[j]] 0 <= j < places.len() implies marked.commands[m
            + j] == (DrawCommand::Circle {
            cx: Scalar::of_int(samples[places[j]].x as int),
            cy: Scalar::of_int(samples[places[j]].y as int),
            radius: settings.keypoint_radius,
            argb: settings.keypoint_color,
        }) by {
            if j < before.len() {
                assert(places[j] == before[j]);
                assert(rest[before[j]] == samples[before[j]]);
                assert(was.commands[m + j] == marked.commands[m + j]);
            }
        }
        places
    }
}

/// A deferred label shows the keypoint's confidence in the labels' colour. It belongs to the
/// keypoint's position, a point without extent, and is handed on at this element's priority
/// and under its name.
pub proof fn law_deferred_labels_belong_to_their_keypoint(
    sample: KeypointSample,
    keypoint: Keypoint,
    settings: Settings,
)
    ensures
        ({
            let intent = label_intent(sample, keypoint, settings);
            &&& intent.text == keypoint.confidence@
            &&& intent.color == settings.labels_color
            &&& intent.anchor.left == sample.x
            &&& intent.anchor.right == sample.x
            &&& intent.anchor.top == sample.y
            &&& intent.anchor.bottom == sample.y
            &&& intent.preferred == default_rect(sample, keypoint.label_width as int)
            &&& intent.kind == CandidateKind::Point
            &&& intent.priority == settings.priority
            &&& intent.owner == OVERLAY_OWNER@
        }),
{
}

/// In defer mode just the keypoints in the frame have a label, in their order, behind those
/// deferred before; `places` tells which. Each label is its own keypoint's. Nothing is drawn
/// or reserved for it.
pub proof fn law_each_keypoint_in_the_frame_is_labelled(
    canvas: Canvas,
    samples: Seq<KeypointSample>,
    keypoints: Seq<Keypoint>,
    settings: Settings,
    bounds: FrameBounds,
) -> (places: Seq<int>)
    requires
        settings.defer_labels,
    ensures
        crate::coordination::walks(places, samples.len() as int),
        forall|k: int|
            0 <= k < samples.len() ==> places.contains(k) == (0 <= (#[trigger] samples[k]).x
                < bounds.width && 0 <= samples[k].y < bounds.height),
        ({
            let labelled = with_labels(canvas, samples, keypoints, settings, bounds);
            let n = canvas.deferred.len() as int;
            &&& labelled.commands == canvas.commands
            &&& labelled.occupied == canvas.occupied
            &&& labelled.deferred.len() == n + places.len()
            &&& forall|i: int| 0 <= i < n ==> #[trigger] labelled.deferred[i] == canvas.deferred[i]
            &&& forall|j: int|
                #![trigger places[j]]
                0 <= j < places.len() ==> labelled.deferred[n + j] == label_intent(
                    samples[places[j]],
                    keypoints[samples[places[j]].index as int],
                    settings,
                )
        }),
    decreases samples.len(),
{
    if samples.len() == 0 {
        Seq::empty()
    } else {
        let rest = samples.drop_last();
        let n = rest.len() as int;
        let before = law_each_keypoint_in_the_frame_is_labelled(
            canvas,
            rest,
            keypoints,
            settings,
            bounds,
        );
        assert(forall|k: int| 0 <= k < n ==> rest[k] == samples[k]);
        crate::coordination::lemma_walk_goes_on(before, n);
        let places = if 0 <= samples[n].x < bounds.width && 0 <= samples[n].y < bounds.height {
            before.push(n)
        } else {
            before
        };
        assert forall|k: int| 0 <= k < samples.len() implies places.contains(k) == (0 <= (
        #[trigger] samples[k]).x < bounds.width && 0 <= samples[k].y < bounds.height) by {
            if k < n {
                assert(rest[k] == samples[k]);
                if places.contains(k) {
                    let i = choose|i: int| 0 <= i < places.len() && places[i] == k;
                    assert(before[i] == k);
                }
            }
        }
        let labelled = with_labels(canvas, samples, keypoints, settings, bounds);
        let was = with_labels(canvas, rest, keypoints, settings, bounds);
        let m = canvas.deferred.len() as int;
        assert forall|i: int| 0 <= i < m implies #[trigger] labelled.deferred[i]
            == canvas.deferred[i] by {
            assert(was.deferred[i] == canvas.deferred[i]);
        }
        assert forall|j: int| #![trigger places[j]] 0 <= j < places.len() implies labelled.deferred[m
            + j] == label_intent(
            samples[places[j]],
            keypoints[samples[places[j]].index as int],
            settings,
        ) by {
            if j < before.len() {
                assert(places[j] == before[j]);
                assert(rest[before[j]] == samples[before[j]]);
                assert(was.deferred[m + j] == labelled.deferred[m + j]);
            }
        }
        places
    }
}

/// Where labels are placed here, each in turn takes its place among what is reserved so far,
/// is drawn in the labels' colour with its keypoint's confidence, and is reserved. One without
/// a place is left out, and one of a keypoint outside the frame is not placed.
pub proof fn law_labels_are_placed_in_turn(
    canvas: Canvas,
    samples: Seq<KeypointSample>,
    sample: KeypointSample,
    keypoints: Seq<Keypoint>,
    settings: Settings,
    bounds: FrameBounds,
)
    requires
        !settings.defer_labels,
    ensures
        with_labels(canvas, Seq::empty(), keypoints, settings, bounds) == canvas,
        ({
            let before = with_labels(canvas, samples, keypoints, settings, bounds);
            let after = with_labels(canvas, samples.push(sample), keypoints, settings, bounds);
            let keypoint = keypoints[sample.index as int];
            let placement = label_placement(
                before.occupied,
                sample,
                keypoint.label_width as int,
            );
            let inside = 0 <= sample.x < bounds.width && 0 <= sample.y < bounds.height;
            &&& after.deferred == canvas.deferred
            &&& !inside || placement is None ==> after == before
            &&& inside && placement is Some ==> {
                &&& after.commands == before.commands + label_commands(
                    sample,
                    keypoint.confidence,
                    placement->0,
                    settings.labels_color,
                )
                &&& after.occupied == before.occupied.with_region(
                    crate::geometry::RegionPriority::Label,
                    placement->0.rect,
                )
            }
        }),
    decreases samples.len(),
{
    assert(samples.push(sample).drop_last() =~= samples);
    if samples.len() > 0 {
        law_labels_are_placed_in_turn(
            canvas,
            samples.drop_last(),
            samples.last(),
            keypoints,
            settings,
            bounds,
        );
        assert(samples.drop_last().push(samples.last()) =~= samples);
    }
}

/// A displaced label has a line of its own colour from the keypoint to the point of the label
/// that is nearest to it. The label's text stands around the middle of its place.
pub proof fn law_leaders_start_at_the_keypoint(
    sample: KeypointSample,
    text: String,
    placement: LabelPlacement,
    argb: u32,
)
    requires
        placement.rect.left <= placement.rect.right,
        placement.rect.top <= placement.rect.bottom,
    ensures
        ({
            let rect = placement.rect;
            let commands = label_commands(sample, text, placement, argb);
            &&& placement.displaced ==> (commands[0] matches DrawCommand::Line {
                x0,
                y0,
                x1,
                y1,
                argb: color,
                ..
            } && color == argb && x0 == Scalar::of_int(sample.x as int) && y0 == Scalar::of_int(
                sample.y as int,
            ) && exists|tx: int, ty: int|
                #![trigger Scalar::of_int(tx), Scalar::of_int(ty)]
                x1 == Scalar::of_int(tx) && y1 == Scalar::of_int(ty)
                    && crate::placement::is_nearest(
                    tx,
                    rect.left as int,
                    rect.right as int,
                    sample.x as int,
                ) && crate::placement::is_nearest(
                    ty,
                    rect.top as int,
                    rect.bottom as int,
                    sample.y as int,
                ))
            &&& commands[commands.len() - 1] matches DrawCommand::TextCentered { x, y, .. } && exists|
                cx: int,
                cy: int,
            |
                #![trigger Scalar::of_int(cx), Scalar::of_int(cy)]
                x == Scalar::of_int(cx) && y == Scalar::of_int(cy) && 0 <= rect.left + rect.right
                    - 2 * cx <= 1 && 0 <= rect.top + rect.bottom - 2 * cy <= 1
        }),
{
    let rect = placement.rect;
    crate::geometry::law_center_lies_half_way(rect);
    let (tx, ty) = rect.nearest(sample.x as int, sample.y as int);
    assert(crate::placement::is_nearest(
        tx,
        rect.left as int,
        rect.right as int,
        sample.x as int,
    ));
    assert(crate::placement::is_nearest(
        ty,
        rect.top as int,
        rect.bottom as int,
        sample.y as int,
    ));
    if placement.displaced {
        assert(label_commands(sample, text, placement, argb)[0]
            == crate::placement::leader_command(
            (sample.x as int, sample.y as int),
            (tx, ty),
            argb,
        ));
    }
}

/// Without labels only markers are drawn. A list with one label for all has it at its first
/// keypoint in the frame, and none where no keypoint is in the frame; any other list has one
/// for each keypoint.
pub proof fn law_lists_have_one_label_or_one_each(
    canvas: Canvas,
    samples: Seq<KeypointSample>,
    keypoints: Seq<Keypoint>,
    settings: Settings,
    bounds: FrameBounds,
    label_once: bool,
    n: int,
)
    ensures
        ({
            let marked = with_markers(canvas, samples, settings, bounds);
            let drawn = with_keypoints(canvas, samples, keypoints, label_once, settings, bounds);
            let outside = forall|k: int|
                0 <= k < samples.len() ==> !(0 <= (#[trigger] samples[k]).x < bounds.width && 0
                    <= samples[k].y < bounds.height);
            let first = 0 <= n < samples.len() && 0 <= samples[n].x < bounds.width && 0
                <= samples[n].y < bounds.height && forall|k: int|
                0 <= k < n ==> !(0 <= (#[trigger] samples[k]).x < bounds.width && 0 <= samples[k].y
                    < bounds.height);
            &&& !settings.draw_labels ==> drawn == marked
            &&& settings.draw_labels && label_once && outside ==> drawn == marked
            &&& settings.draw_labels && label_once && first ==> drawn == with_label(
                marked,
                samples[n],
                keypoints[samples[n].index as int],
                settings,
            )
            &&& settings.draw_labels && !label_once ==> drawn == with_labels(
                marked,
                samples,
                keypoints,
                settings,
                bounds,
            )
        }),
{
    if exists|i: int| first_in_frame(samples, bounds, i) {
        let i = choose|i: int| first_in_frame(samples, bounds, i);
        assert(bounds.holds(samples[i].x as int, samples[i].y as int));
        if first_in_frame(samples, bounds, n) {
            if i < n {
                assert(!bounds.holds(samples[i].x as int, samples[i].y as int));
            }
            if n < i {
                assert(!bounds.holds(samples[n].x as int, samples[n].y as int));
            }
        } else if 0 <= n < samples.len() && bounds.holds(
            samples[n].x as int,
            samples[n].y as int,
        ) {
            let k = choose|k: int|
                0 <= k < n && bounds.holds(#[trigger] samples[k].x as int, samples[k].y as int);
            assert(0 <= samples[k].x < bounds.width);
        }
    } else {
        assert(!first_in_frame(samples, bounds, n));
        if 0 <= n < samples.len() && bounds.holds(samples[n].x as int, samples[n].y as int) {
            let k = choose|k: int|
                0 <= k < n && bounds.holds(#[trigger] samples[k].x as int, samples[k].y as int);
            assert(0 <= samples[k].x < bounds.width);
        }
    }
}

/// The groups whose tag begins with the wanted one are drawn one after the other, each as a
/// list with one label, with its skeleton behind it where skeletons are drawn; no other group
/// is drawn or counted. A group counts by its keypoints with a known position.
pub proof fn law_only_wanted_groups_are_drawn(
    canvas: Canvas,
    groups: Seq<KeypointGroup>,
    group: KeypointGroup,
    prefix: Seq<char>,
    settings: Settings,
    bounds: FrameBounds,
)
    ensures
        with_groups(canvas, Seq::empty(), prefix, settings, bounds) == canvas,
        group_count(Seq::empty(), prefix) == 0,
        ({
            let before = with_groups(canvas, groups, prefix, settings, bounds);
            let after = with_groups(canvas, groups.push(group), prefix, settings, bounds);
            let samples = samples_of(group.keypoints@);
            let listed = with_keypoints(
                before,
                samples,
                group.keypoints@,
                true,
                settings,
                bounds,
            );
            let begins = group.tag is Some && prefix.len() <= group.tag->0@.len() && forall|i: int|
                0 <= i < prefix.len() ==> #[trigger] group.tag->0@[i] == prefix[i];
            &&& !begins ==> after == before && group_count(groups.push(group), prefix)
                == group_count(groups, prefix)
            &&& begins ==> {
                &&& group_count(groups.push(group), prefix) == group_count(groups, prefix)
                    + samples.len()
                &&& after.occupied == listed.occupied
                &&& after.deferred == listed.deferred
                &&& !settings.draw_skeleton ==> after.commands == listed.commands
                &&& settings.draw_skeleton && group.tag->0@ == "hand-kp-21"@ ==> after.commands
                    == listed.commands + hand_lines(samples, 21, settings, bounds)
                &&& settings.draw_skeleton && group.tag->0@ != "hand-kp-21"@ ==> after.commands
                    == listed.commands + relation_lines(
                    samples,
                    group.keypoints@,
                    settings,
                    bounds,
                )
            }
        }),
{
    assert(groups.push(group).drop_last() =~= groups);
    if let Some(tag) = group.tag {
        if prefix.is_prefix_of(tag@) {
            assert(prefix =~= tag@.subrange(0, prefix.len() as int));
            assert forall|i: int| 0 <= i < prefix.len() implies #[trigger] tag@[i] == prefix[i] by {
                assert(tag@.subrange(0, prefix.len() as int)[i] == tag@[i]);
            }
        }
        if prefix.len() <= tag@.len() && (forall|i: int|
            0 <= i < prefix.len() ==> #[trigger] tag@[i] == prefix[i]) {
            assert(prefix =~= tag@.subrange(0, prefix.len() as int));
        }
    }
}

/// With a wanted tag the groups decide what is drawn, and without one the keypoints, each with
/// its own label; the other list plays no part. Either way the overlay starts with what other
/// elements claimed at this element's priority or higher.
pub proof fn law_the_tag_decides_what_is_drawn(
    groups: Seq<KeypointGroup>,
    keypoints: Seq<Keypoint>,
    others: Seq<Keypoint>,
    more: Seq<KeypointGroup>,
    claims: Seq<crate::coordination::Claim>,
    settings: Settings,
    bounds: FrameBounds,
)
    ensures
        settings.semantic_tag is Some ==> overlay_of(groups, keypoints, claims, settings, bounds)
            == overlay_of(groups, others, claims, settings, bounds) && keypoint_count(
            groups,
            keypoints,
            settings,
        ) == group_count(groups, settings.semantic_tag->0@),
        settings.semantic_tag is None ==> overlay_of(groups, keypoints, claims, settings, bounds)
            == overlay_of(more, keypoints, claims, settings, bounds) && keypoint_count(
            groups,
            keypoints,
            settings,
        ) == samples_of(keypoints).len(),
        ({
            let start = Canvas {
                occupied: crate::coordination::seeded(
                    crate::geometry::Occupancy::fresh(bounds.width as int, bounds.height as int),
                    claims,
                    Some("keypointsoverlay"@),
                    settings.priority,
                ),
                commands: Seq::empty(),
                deferred: Seq::empty(),
            };
            &&& settings.semantic_tag is None ==> overlay_of(
                groups,
                keypoints,
                claims,
                settings,
                bounds,
            ) == with_keypoints(
                start,
                samples_of(keypoints),
                keypoints,
                false,
                settings,
                bounds,
            )
            &&& settings.semantic_tag matches Some(prefix) ==> overlay_of(
                groups,
                keypoints,
                claims,
                settings,
                bounds,
            ) == with_groups(start, groups, prefix@, settings, bounds)
        }),
{
}

} // verus!
