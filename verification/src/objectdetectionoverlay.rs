//! The object-detection overlay: detections become boxes and labels.

use vstd::prelude::*;
use vstd::string::*;

use crate::coordination::{seed_registry_from_claims, ClaimMeta};
use crate::geometry::{
    saturating_difference, saturating_sum, OccupiedRegionRegistry, Rect, RegionPriority,
};
use crate::overlay_intent::{CandidateKind, LabelIntent};
use crate::placement::{
    box_label_candidates, leader_endpoints, place_label, push_leader_line, LabelPlacement,
};
use crate::render::{AnalyticsFrame, DrawCommand, LABEL_LAYOUT_GAP, LABEL_LAYOUT_HEIGHT};
use crate::scalar::Scalar;
use crate::text::push_decimal;

verus! {

/// Owner tag this element uses when claiming/reading shared regions.
pub const OVERLAY_OWNER: &'static str = "odoverlay";

pub const DEFAULT_OBJECT_DETECTION_OUTLINE_COLOR: u32 = 0xFFFF_FFFF;

pub const DEFAULT_LABELS_COLOR: u32 = 0xFFFF_FFFF;

pub const DEFAULT_EXPIRE_OVERLAY: u64 = 1_000_000_000;

/// What to draw, and how.
#[derive(Debug, Clone, Copy)]
pub struct Settings {
    pub render_enabled: bool,
    pub object_detection_outline_color: u32,
    pub draw_labels: bool,
    pub draw_tracking_labels: bool,
    pub labels_color: u32,
    pub filled_box: bool,
    pub expire_overlay: u64,
    pub tracking_outline_colors: bool,
    pub suppress_builtin_rendering: bool,
    /// Cross-element priority (see [`crate::coordination`]).
    pub priority: i32,
    /// When set, emit labels as deferred intents for a downstream compositor
    /// (see [`crate::overlay_intent`]) instead of placing/rendering them here.
    pub defer_labels: bool,
}

impl Default for Settings {
    fn default() -> (r: Self)
        ensures
            !r.render_enabled,
            r.object_detection_outline_color == 0xFFFF_FFFF,
            r.draw_labels,
            r.draw_tracking_labels,
            r.labels_color == 0xFFFF_FFFF,
            !r.filled_box,
            r.expire_overlay == 1_000_000_000,
            r.tracking_outline_colors,
            !r.suppress_builtin_rendering,
            r.priority == crate::coordination::DEFAULT_PRIORITY,
            !r.defer_labels,
    {
        Settings {
            render_enabled: false,
            object_detection_outline_color: DEFAULT_OBJECT_DETECTION_OUTLINE_COLOR,
            draw_labels: true,
            draw_tracking_labels: true,
            labels_color: DEFAULT_LABELS_COLOR,
            filled_box: false,
            expire_overlay: DEFAULT_EXPIRE_OVERLAY,
            tracking_outline_colors: true,
            suppress_builtin_rendering: false,
            priority: crate::coordination::DEFAULT_PRIORITY,
            defer_labels: false,
        }
    }
}

/// The size of the frame.
#[derive(Debug, Clone, Copy)]
pub struct FrameBounds {
    pub width: i32,
    pub height: i32,
}

/// A box in the frame.
#[derive(Debug, Clone, Copy, PartialEq, Eq, Structural)]
pub struct BBox {
    pub x: i32,
    pub y: i32,
    pub w: i32,
    pub h: i32,
}

impl BBox {
    pub open spec fn rect_of(self) -> Rect {
        Rect::of(self.x as int, self.y as int, self.w as int, self.h as int)
    }

    pub fn rect(self) -> (r: Rect)
        ensures
            r == self.rect_of(),
            r.measurable(),
    {
        Rect::from_xywh(self.x, self.y, self.w, self.h)
    }
}

/// A class, and the confidence in it as a text with two decimals.
#[derive(Debug)]
pub struct ClassLevel {
    pub label: String,
    pub level: String,
}

/// A track that a detection belongs to, and the colour of that track.
#[derive(Debug, Clone, Copy)]
pub struct Tracking {
    pub id: u64,
    pub color: u32,
}

/// A detected object, with what is related to it.
#[derive(Debug)]
pub struct Detection {
    /// The upright box, if it could be read.
    pub location: Option<BBox>,
    /// The rotated box with its rotation, if there is one.
    pub oriented: Option<(BBox, Scalar)>,
    /// The object type's name.
    pub object_type: Option<String>,
    /// The confidence in the detection, as a text with two decimals.
    pub confidence: String,
    /// The classes of the first related classification.
    pub classification: Option<Vec<ClassLevel>>,
    /// The first related track.
    pub tracking: Option<Tracking>,
}

/// A label that waits for its place.
#[derive(Debug)]
pub struct PendingLabel {
    pub box_rect: Rect,
    pub text: String,
    pub preferred_x: i32,
    pub preferred_y: i32,
}

/// A waiting label with its text by its characters.
#[verifier::ext_equal]
pub struct Job {
    pub box_rect: Rect,
    pub text: Seq<char>,
    pub preferred_x: i32,
    pub preferred_y: i32,
}

impl View for PendingLabel {
    type V = Job;

    open spec fn view(&self) -> Job {
        Job {
            box_rect: self.box_rect,
            text: self.text@,
            preferred_x: self.preferred_x,
            preferred_y: self.preferred_y,
        }
    }
}

pub open spec fn jobs(labels: Seq<PendingLabel>) -> Seq<Job> {
    labels.map_values(|label: PendingLabel| label@)
}

/// A label with the confidence in it.
pub open spec fn confidence_label(label: Seq<char>, level: Seq<char>) -> Seq<char> {
    label + " (c="@ + level + ")"@
}

/// The number under which a track's colour is looked up: its low 28 bits.
pub fn track_color_key(id: u64) -> (r: u64)
    ensures
        r == id as int % 0x1000_0000,
{
    id % 0x1000_0000
}

fn with_confidence(label: &str, level: &str) -> (r: String)
    ensures
        r@ == confidence_label(label@, level@),
{
    let mut text: String = label.to_owned();
    text.append(" (c=");
    text.append(level);
    text.append(")");
    assert(text@ =~= confidence_label(label@, level@));
    text
}

pub open spec fn track_label(id: int) -> Seq<char> {
    "Track: "@ + crate::text::decimal(id)
}

/// The text of a tracking label.
pub fn tracking_label_text(tracking_id: u64) -> (r: String)
    ensures
        r@ == track_label(tracking_id as int),
{
    let mut text: String = "Track: ".to_owned();
    push_decimal(&mut text, tracking_id);
    text
}

impl Detection {
    /// The text of the object's own label.
    pub open spec fn own_label(self) -> Seq<char> {
        match self.object_type {
            Some(name) => confidence_label(name@, self.confidence@),
            None => confidence_label("unknown"@, self.confidence@),
        }
    }

    /// The text of the object's label: the first class of a related classification, else
    /// the object type.
    pub open spec fn label(self) -> Seq<char> {
        match self.classification {
            Some(classes) => if classes@.len() > 0 {
                confidence_label(classes@[0].label@, classes@[0].level@)
            } else {
                self.own_label()
            },
            None => self.own_label(),
        }
    }

    /// The box that is drawn, with its rotation; none where the location cannot be read or
    /// the box is empty.
    pub open spec fn drawn_box(self) -> Option<(BBox, Scalar)> {
        match self.location {
            Some(location) => {
                let (bbox, rotation) = match self.oriented {
                    Some(oriented) => oriented,
                    None => (location, Scalar::of_int(0)),
                };
                if bbox.w <= 0 || bbox.h <= 0 {
                    None
                } else {
                    Some((bbox, rotation))
                }
            },
            None => None,
        }
    }

    /// The colour of the box.
    pub open spec fn outline(self, settings: Settings) -> u32 {
        match self.tracking {
            Some(tracking) => if settings.tracking_outline_colors {
                tracking.color
            } else {
                settings.object_detection_outline_color
            },
            None => settings.object_detection_outline_color,
        }
    }

    /// The command that draws the box.
    pub open spec fn box_command(self, settings: Settings) -> DrawCommand {
        let (bbox, rotation) = self.drawn_box()->0;
        DrawCommand::Rectangle {
            x: Scalar::of_int(bbox.x as int),
            y: Scalar::of_int(bbox.y as int),
            width: Scalar::of_int(bbox.w as int),
            height: Scalar::of_int(bbox.h as int),
            rotation,
            argb: self.outline(settings),
            filled: settings.filled_box,
        }
    }

    /// The labels that a drawn detection asks for.
    pub open spec fn own_jobs(self, settings: Settings) -> Seq<Job> {
        let box_rect = (self.drawn_box()->0).0.rect_of();
        let location = self.location->0;
        let class_jobs = if settings.draw_labels {
            seq![
                Job {
                    box_rect,
                    text: self.label(),
                    preferred_x: location.x,
                    preferred_y: location.y,
                },
            ]
        } else {
            Seq::empty()
        };
        match self.tracking {
            Some(tracking) => if settings.draw_tracking_labels {
                class_jobs.push(
                    Job {
                        box_rect,
                        text: track_label(tracking.id as int),
                        preferred_x: location.x,
                        preferred_y: crate::geometry::saturated(
                            crate::geometry::saturated(
                                crate::geometry::saturated(location.y + location.h)
                                    + LABEL_LAYOUT_HEIGHT,
                            ) + LABEL_LAYOUT_GAP,
                        ),
                    },
                )
            } else {
                class_jobs
            },
            None => class_jobs,
        }
    }

    fn own_label_text(&self) -> (r: String)
        ensures
            r@ == self.own_label(),
    {
        match &self.object_type {
            Some(name) => with_confidence(name.as_str(), self.confidence.as_str()),
            None => with_confidence("unknown", self.confidence.as_str()),
        }
    }

    /// The text of the object's label.
    pub fn label_text(&self) -> (r: String)
        ensures
            r@ == self.label(),
    {
        match &self.classification {
            Some(classes) => if classes.len() > 0 {
                with_confidence(classes[0].label.as_str(), classes[0].level.as_str())
            } else {
                self.own_label_text()
            },
            None => self.own_label_text(),
        }
    }

    /// The box that is drawn, with its rotation.
    fn visible_box(&self) -> (r: Option<(BBox, Scalar)>)
        ensures
            r == self.drawn_box(),
    {
        let location = match self.location {
            Some(location) => location,
            None => return None,
        };
        let (bbox, rotation) = match self.oriented {
            Some(oriented) => oriented,
            None => (location, Scalar::from_i32(0)),
        };
        if bbox.w <= 0 || bbox.h <= 0 {
            None
        } else {
            Some((bbox, rotation))
        }
    }
}

/// The rectangles of the drawn boxes.
pub open spec fn box_rects(detections: Seq<Detection>) -> Seq<Rect>
    decreases detections.len(),
{
    if detections.len() == 0 {
        Seq::empty()
    } else {
        let before = box_rects(detections.drop_last());
        match detections.last().drawn_box() {
            Some((bbox, _)) => before.push(bbox.rect_of()),
            None => before,
        }
    }
}

/// The commands that draw the boxes.
pub open spec fn box_commands(detections: Seq<Detection>, settings: Settings) -> Seq<DrawCommand>
    decreases detections.len(),
{
    if detections.len() == 0 {
        Seq::empty()
    } else {
        let before = box_commands(detections.drop_last(), settings);
        if detections.last().drawn_box() is Some {
            before.push(detections.last().box_command(settings))
        } else {
            before
        }
    }
}

/// The labels that the detections ask for.
pub open spec fn label_jobs(detections: Seq<Detection>, settings: Settings) -> Seq<Job>
    decreases detections.len(),
{
    if detections.len() == 0 {
        Seq::empty()
    } else {
        let before = label_jobs(detections.drop_last(), settings);
        if detections.last().drawn_box() is Some {
            before + detections.last().own_jobs(settings)
        } else {
            before
        }
    }
}

/// The rectangle of a label whose text is `text_width` wide and ends at `anchor_y`.
pub open spec fn label_rect(anchor_x: int, anchor_y: int, text_width: int) -> Rect {
    Rect::of(
        anchor_x,
        crate::geometry::saturated(anchor_y - LABEL_LAYOUT_HEIGHT) as int,
        text_width,
        LABEL_LAYOUT_HEIGHT as int,
    )
}

/// The rectangle of a label whose text is `text_width` wide and ends at `anchor_y`.
pub fn estimate_label_rect(anchor_x: i32, anchor_y: i32, text_width: i32) -> (r: Rect)
    ensures
        r == label_rect(anchor_x as int, anchor_y as int, text_width as int),
        r.measurable(),
{
    Rect::from_xywh(
        anchor_x,
        saturating_difference(anchor_y, LABEL_LAYOUT_HEIGHT),
        text_width,
        LABEL_LAYOUT_HEIGHT,
    )
}

/// Where a label goes.
pub open spec fn label_placement(
    o: crate::geometry::Occupancy,
    label: PendingLabel,
    text_width: int,
) -> Option<LabelPlacement> {
    crate::placement::placement_of(
        o,
        label_rect(label.preferred_x as int, label.preferred_y as int, text_width),
        crate::placement::box_candidates(label.box_rect, text_width),
    )
}

/// The commands that draw a placed label: a leader line if it was displaced, then the text.
pub open spec fn label_commands(
    label: PendingLabel,
    placement: LabelPlacement,
    color: u32,
) -> Seq<DrawCommand> {
    let ends = crate::placement::leader_of(label.box_rect, placement.rect);
    let text = DrawCommand::Text {
        x: Scalar::of_int(placement.rect.left as int),
        y: Scalar::of_int(placement.rect.bottom as int),
        text: label.text,
        argb: color,
    };
    if placement.displaced {
        seq![crate::placement::leader_command(ends.0, ends.1, color), text]
    } else {
        seq![text]
    }
}

/// The occupancy after a list of labels was placed, and the commands that draw them.
#[verifier::ext_equal]
pub struct Labelled {
    pub occupancy: crate::geometry::Occupancy,
    pub commands: Seq<DrawCommand>,
}

/// Labels placed one after the other.
pub open spec fn labelled(
    o: crate::geometry::Occupancy,
    labels: Seq<PendingLabel>,
    widths: Seq<i32>,
    color: u32,
) -> Labelled
    decreases labels.len(),
{
    if labels.len() == 0 {
        Labelled { occupancy: o, commands: Seq::empty() }
    } else {
        let n = labels.len() - 1;
        let before = labelled(o, labels.drop_last(), widths, color);
        let placement = label_placement(before.occupancy, labels[n], widths[n] as int);
        Labelled {
            occupancy: crate::placement::with_placement(before.occupancy, placement),
            commands: match placement {
                Some(placement) => before.commands + label_commands(labels[n], placement, color),
                None => before.commands,
            },
        }
    }
}

/// Place an object label: at its preferred position if that is free, else around the box.
pub fn place_od_label(
    registry: &mut OccupiedRegionRegistry,
    box_rect: Rect,
    text_width: i32,
    preferred_x: i32,
    preferred_y: i32,
) -> (r: Option<LabelPlacement>)
    requires
        old(registry)@.summable(),
    ensures
        final(registry)@.sound(),
        final(registry)@.frame == old(registry)@.frame,
        final(registry)@.regions.len() <= old(registry)@.regions.len() + 1,
        r == crate::placement::placement_of(
            old(registry)@,
            label_rect(preferred_x as int, preferred_y as int, text_width as int),
            crate::placement::box_candidates(box_rect, text_width as int),
        ),
        final(registry)@ == crate::placement::with_placement(old(registry)@, r),
        r matches Some(placement) ==> placement.rect.measurable(),
{
    proof {
        use_type_invariant(&*registry);
    }
    let default = estimate_label_rect(preferred_x, preferred_y, text_width);
    let candidates = box_label_candidates(box_rect, text_width);
    proof {
        let o = registry@;
        let label = crate::geometry::RegionPriority::Label;
        crate::geometry::law_summable_areas_fit(o, label, default);
        assert forall|k: int| 0 <= k < candidates@.len() implies crate::placement::areas_fit(
            o,
            #[trigger] candidates@[k],
        ) by {
            crate::geometry::law_summable_areas_fit(o, label, candidates@[k]);
        }
        crate::placement::lemma_box_placement_is_measurable(
            o,
            default,
            box_rect,
            text_width as int,
        );
    }
    place_label(registry, default, candidates.as_slice())
}

/// Draw an object label at its placed position, with a leader line between the
/// box edge and the label edge when the label was displaced.
pub fn push_od_label(
    commands: &mut Vec<DrawCommand>,
    placement: LabelPlacement,
    label: &PendingLabel,
    argb: u32,
)
    requires
        label.box_rect.measurable(),
        placement.rect.measurable(),
    ensures
        final(commands)@ == old(commands)@ + label_commands(*label, placement, argb),
{
    if placement.displaced {
        let (from, to) = leader_endpoints(label.box_rect, placement.rect);
        push_leader_line(commands, from, to, argb);
    }
    commands.push(
        DrawCommand::Text {
            x: Scalar::from_i32(placement.rect.left),
            y: Scalar::from_i32(placement.rect.bottom),
            text: label.text.clone(),
            argb,
        },
    );
    assert(commands@ =~= old(commands)@ + label_commands(*label, placement, argb));
}

/// Place the waiting labels, and draw them.
pub fn place_pending_labels(
    registry: &mut OccupiedRegionRegistry,
    labels: &Vec<PendingLabel>,
    widths: &Vec<i32>,
    color: u32,
    commands: &mut Vec<DrawCommand>,
)
    requires
        widths@.len() == labels@.len(),
        forall|i: int|
            0 <= i < labels@.len() ==> (#[trigger] labels@[i]).box_rect.measurable(),
        crate::geometry::frame_takes(
            old(registry)@.frame,
            old(registry)@.regions.len() + labels@.len(),
        ),
    ensures
        final(registry)@.sound(),
        final(registry)@ == labelled(old(registry)@, labels@, widths@, color).occupancy,
        final(commands)@ == old(commands)@ + labelled(
            old(registry)@,
            labels@,
            widths@,
            color,
        ).commands,
{
    proof {
        use_type_invariant(&*registry);
    }
    let ghost o = registry@;
    let ghost start = commands@;
    let mut i: usize = 0;
    assert(labels@.take(0) =~= Seq::<PendingLabel>::empty());
    assert(start + Seq::<DrawCommand>::empty() =~= start);
    while i < labels.len()
        invariant
            i <= labels.len(),
            widths@.len() == labels@.len(),
            registry@.sound(),
            registry@.frame == o.frame,
            registry@.regions.len() <= o.regions.len() + i,
            forall|k: int|
                0 <= k < labels@.len() ==> (#[trigger] labels@[k]).box_rect.measurable(),
            crate::geometry::frame_takes(o.frame, o.regions.len() + labels@.len()),
            registry@ == labelled(o, labels@.take(i as int), widths@, color).occupancy,
            commands@ == start + labelled(o, labels@.take(i as int), widths@, color).commands,
        decreases labels.len() - i,
    {
        let label = &labels[i];
        let ghost before = labelled(o, labels@.take(i as int), widths@, color);
        proof {
            let next = labels@.take(i + 1);
            assert(next.drop_last() =~= labels@.take(i as int));
            assert(next[i as int] == label);
            crate::geometry::lemma_frame_takes_fewer(
                o.frame,
                o.regions.len() + labels@.len(),
                registry@.regions.len(),
            );
        }
        match place_od_label(
            registry,
            label.box_rect,
            widths[i],
            label.preferred_x,
            label.preferred_y,
        ) {
            Some(placement) => {
                push_od_label(commands, placement, label, color);
                assert(commands@ =~= start + (before.commands + label_commands(
                    *label,
                    placement,
                    color,
                )));
            },
            None => {},
        }
        i = i + 1;
    }
    assert(labels@.take(i as int) =~= labels@);
}

/// The regions that pass one leaves occupied: what other elements claimed, and the boxes.
pub open spec fn occupied_by_boxes(
    detections: Seq<Detection>,
    claims: Seq<crate::coordination::Claim>,
    settings: Settings,
    bounds: FrameBounds,
) -> crate::geometry::Occupancy {
    crate::placement::highlighted(
        crate::coordination::seeded(
            crate::geometry::Occupancy::fresh(bounds.width as int, bounds.height as int),
            claims,
            Some(OVERLAY_OWNER@),
            settings.priority,
        ),
        box_rects(detections),
    )
}

/// A label as the intent that a compositor places.
pub open spec fn deferred_label(label: Job, text_width: int, settings: Settings) -> crate::overlay_intent::Intent {
    crate::overlay_intent::Intent {
        text: label.text,
        color: settings.labels_color,
        anchor: label.box_rect,
        preferred: label_rect(label.preferred_x as int, label.preferred_y as int, text_width),
        kind: CandidateKind::Box,
        priority: settings.priority,
        owner: OVERLAY_OWNER@,
    }
}

/// The number of regions that an overlay may reserve in its frame fits the area sums.
pub open spec fn frame_fits(bounds: FrameBounds, regions: nat) -> bool {
    crate::geometry::frame_takes(Rect::of(0, 0, bounds.width as int, bounds.height as int), regions)
}

/// Register every box as a highlight, whatever it overlaps, draw it, and note its labels.
fn draw_boxes(
    detections: &[Detection],
    settings: Settings,
    occupied: &mut OccupiedRegionRegistry,
    commands: &mut Vec<DrawCommand>,
    pending: &mut Vec<PendingLabel>,
) -> (object_count: usize)
    requires
        old(commands)@.len() == 0,
        old(pending)@.len() == 0,
    ensures
        final(occupied)@.sound(),
        final(occupied)@ == crate::placement::highlighted(old(occupied)@, box_rects(detections@)),
        final(occupied)@.frame == old(occupied)@.frame,
        final(occupied)@.regions.len() <= old(occupied)@.regions.len() + detections@.len(),
        final(commands)@ == box_commands(detections@, settings),
        jobs(final(pending)@) == label_jobs(detections@, settings),
        final(pending)@.len() <= 2 * detections@.len(),
        forall|i: int|
            0 <= i < final(pending)@.len() ==> (#[trigger] final(pending)@[i]).box_rect.measurable(),
        object_count == box_rects(detections@).len(),
{
    proof {
        use_type_invariant(&*occupied);
    }
    let ghost o = occupied@;
    let mut object_count: usize = 0;
    let mut i: usize = 0;
    assert(detections@.take(0) =~= Seq::<Detection>::empty());
    assert(commands@ =~= Seq::<DrawCommand>::empty());
    assert(jobs(pending@) =~= Seq::<Job>::empty());
    while i < detections.len()
        invariant
            i <= detections.len(),
            object_count <= i,
            occupied@.sound(),
            occupied@ == crate::placement::highlighted(o, box_rects(detections@.take(i as int))),
            occupied@.frame == o.frame,
            occupied@.regions.len() <= o.regions.len() + i,
            commands@ == box_commands(detections@.take(i as int), settings),
            jobs(pending@) == label_jobs(detections@.take(i as int), settings),
            pending@.len() <= 2 * i,
            forall|k: int|
                0 <= k < pending@.len() ==> (#[trigger] pending@[k]).box_rect.measurable(),
            object_count == box_rects(detections@.take(i as int)).len(),
        decreases detections.len() - i,
    {
        let detection = &detections[i];
        let ghost seen = detections@.take(i as int);
        let ghost next = detections@.take(i + 1);
        proof {
            assert(next.drop_last() =~= seen);
            assert(next.last() == detection);
        }
        if let Some((bbox, rotation)) = detection.visible_box() {
            let location = detection.location.unwrap();
            let outline_color: u32 = match detection.tracking {
                Some(tracking) => if settings.tracking_outline_colors {
                    tracking.color
                } else {
                    settings.object_detection_outline_color
                },
                None => settings.object_detection_outline_color,
            };
            object_count = object_count + 1;
            let box_rect = bbox.rect();
            proof {
                let rects = box_rects(next);
                assert(rects.drop_last() =~= box_rects(seen));
            }
            let _ = occupied.force_reserve(RegionPriority::Highlight, box_rect);
            commands.push(
                DrawCommand::Rectangle {
                    x: Scalar::from_i32(bbox.x),
                    y: Scalar::from_i32(bbox.y),
                    width: Scalar::from_i32(bbox.w),
                    height: Scalar::from_i32(bbox.h),
                    rotation,
                    argb: outline_color,
                    filled: settings.filled_box,
                },
            );
            let ghost before = pending@;
            if settings.draw_labels {
                pending.push(
                    PendingLabel {
                        box_rect,
                        text: detection.label_text(),
                        preferred_x: location.x,
                        preferred_y: location.y,
                    },
                );
            }
            if settings.draw_tracking_labels {
                if let Some(tracking) = detection.tracking {
                    // The label's default position sits just below the box so it does
                    // not overlap the box highlight.
                    let default_baseline: i32 = saturating_sum(
                        saturating_sum(
                            saturating_sum(location.y, location.h),
                            LABEL_LAYOUT_HEIGHT,
                        ),
                        LABEL_LAYOUT_GAP,
                    );
                    pending.push(
                        PendingLabel {
                            box_rect,
                            text: tracking_label_text(tracking.id),
                            preferred_x: location.x,
                            preferred_y: default_baseline,
                        },
                    );
                }
            }
            assert(jobs(pending@) =~= jobs(before) + detection.own_jobs(settings));
        }
        i = i + 1;
    }
    assert(detections@.take(i as int) =~= detections@);
    object_count
}

/// The waiting labels as intents for a compositor.
pub fn defer_pending_labels(
    labels: &Vec<PendingLabel>,
    widths: &Vec<i32>,
    settings: Settings,
) -> (r: Vec<LabelIntent>)
    requires
        widths@.len() == labels@.len(),
    ensures
        r@.len() == labels@.len(),
        forall|i: int|
            0 <= i < r@.len() ==> (#[trigger] r@[i])@ == deferred_label(
                labels@[i]@,
                widths@[i] as int,
                settings,
            ),
{
    let mut deferred: Vec<LabelIntent> = Vec::new();
    let mut i: usize = 0;
    while i < labels.len()
        invariant
            i <= labels.len(),
            widths@.len() == labels@.len(),
            deferred@.len() == i,
            forall|k: int|
                0 <= k < i ==> (#[trigger] deferred@[k])@ == deferred_label(
                    labels@[k]@,
                    widths@[k] as int,
                    settings,
                ),
        decreases labels.len() - i,
    {
        let label = &labels[i];
        let intent = LabelIntent {
            text: label.text.clone(),
            color: settings.labels_color,
            anchor: label.box_rect,
            preferred: estimate_label_rect(label.preferred_x, label.preferred_y, widths[i]),
            kind: CandidateKind::Box,
            priority: settings.priority,
            owner: OVERLAY_OWNER.to_owned(),
        };
        assert(intent@ == deferred_label(labels@[i as int]@, widths@[i as int] as int, settings));
        deferred.push(intent);
        i = i + 1;
    }
    deferred
}

/// Measure the text of every waiting label.
fn measure_pending<F: Fn(&String) -> i32>(labels: &Vec<PendingLabel>, measure: &F) -> (r: Vec<i32>)
    requires
        forall|text: &String| measure.requires((text,)),
    ensures
        r@.len() == labels@.len(),
        forall|i: int|
            0 <= i < labels@.len() ==> measure.ensures((&labels@[i].text,), #[trigger] r@[i]),
{
    let mut widths: Vec<i32> = Vec::new();
    let mut i: usize = 0;
    while i < labels.len()
        invariant
            i <= labels.len(),
            widths@.len() == i,
            forall|text: &String| measure.requires((text,)),
            forall|k: int|
                0 <= k < i ==> measure.ensures((&labels@[k].text,), #[trigger] widths@[k]),
        decreases labels.len() - i,
    {
        let width: i32 = measure(&labels[i].text);
        widths.push(width);
        i = i + 1;
    }
    widths
}

/// What an overlay consists of: the boxes and, depending on
/// [`Settings::defer_labels`], either the placed labels' commands or the deferred intents.
/// `labels` are the labels that the detections ask for, `widths` the widths of their texts.
pub open spec fn is_overlay(
    detections: Seq<Detection>,
    claims: Seq<crate::coordination::Claim>,
    settings: Settings,
    bounds: FrameBounds,
    labels: Seq<PendingLabel>,
    widths: Seq<i32>,
    commands: Seq<DrawCommand>,
    deferred: Seq<crate::overlay_intent::Intent>,
) -> bool {
    let o = occupied_by_boxes(detections, claims, settings, bounds);
    let boxes = box_commands(detections, settings);
    &&& jobs(labels) == label_jobs(detections, settings)
    &&& widths.len() == labels.len()
    &&& if settings.defer_labels {
        &&& commands == boxes
        &&& deferred == Seq::new(
            labels.len(),
            |i: int| deferred_label(labels[i]@, widths[i] as int, settings),
        )
    } else {
        &&& commands == boxes + labelled(o, labels, widths, settings.labels_color).commands
        &&& deferred == Seq::<crate::overlay_intent::Intent>::empty()
    }
}

/// `widths` are widths that `measure` may give for the texts of the labels.
pub open spec fn measured<F: Fn(&String) -> i32>(
    measure: F,
    labels: Seq<PendingLabel>,
    widths: Seq<i32>,
) -> bool {
    forall|i: int|
        0 <= i < labels.len() ==> measure.ensures((&labels[i].text,), #[trigger] widths[i])
}

/// Build the object-detection overlay of a frame: the anchored draw commands
/// (boxes) plus, depending on [`Settings::defer_labels`], either placed label
/// commands (local mode) or a list of deferred [`LabelIntent`]s for a downstream
/// compositor (defer mode; the returned commands then contain only boxes).
///
/// Regions that other elements claimed at this element's priority or higher are avoided;
/// lower-priority claims are left out, so they are drawn over. All boxes are registered
/// before any label is placed, so that labels avoid later boxes too. `measure` gives the
/// width of a label's text.
pub fn analytics_to_overlay<F: Fn(&String) -> i32>(
    detections: &[Detection],
    claims: &Option<ClaimMeta>,
    settings: Settings,
    bounds: FrameBounds,
    measure: F,
) -> (r: (AnalyticsFrame, Vec<DrawCommand>, Vec<LabelIntent>))
    requires
        forall|text: &String| measure.requires((text,)),
        frame_fits(bounds, crate::coordination::claims_on(*claims).len() + 3 * detections@.len()),
    ensures
        r.0.object_count == box_rects(detections@).len(),
        r.0.segment_count == 0,
        r.0.keypoint_count == 0,
        r.0.semantic_tag is None,
        exists|labels: Seq<PendingLabel>, widths: Seq<i32>|
            measured(measure, labels, widths) && #[trigger] is_overlay(
                detections@,
                crate::coordination::claims_on(*claims),
                settings,
                bounds,
                labels,
                widths,
                r.1@,
                crate::overlay_intent::intents(r.2@),
            ),
{
    let mut commands: Vec<DrawCommand> = Vec::new();
    let mut pending: Vec<PendingLabel> = Vec::new();
    let mut occupied = OccupiedRegionRegistry::new(bounds.width, bounds.height);
    // Avoid regions other elements claimed at our priority or higher; lower-
    // priority claims are left out so we draw over them.
    seed_registry_from_claims(&mut occupied, claims, OVERLAY_OWNER, settings.priority);
    let object_count: usize = draw_boxes(
        detections,
        settings,
        &mut occupied,
        &mut commands,
        &mut pending,
    );
    let widths = measure_pending(&pending, &measure);
    let ghost o = occupied@;
    let ghost boxes = commands@;
    let mut deferred: Vec<LabelIntent> = Vec::new();
    if settings.defer_labels {
        deferred = defer_pending_labels(&pending, &widths, settings);
        assert(crate::overlay_intent::intents(deferred@) =~= Seq::new(
            pending@.len(),
            |i: int| deferred_label(pending@[i]@, widths@[i] as int, settings),
        ));
    } else {
        proof {
            crate::geometry::lemma_frame_takes_fewer(
                o.frame,
                crate::coordination::claims_on(*claims).len() + 3 * detections@.len(),
                o.regions.len() + pending@.len(),
            );
        }
        place_pending_labels(
            &mut occupied,
            &pending,
            &widths,
            settings.labels_color,
            &mut commands,
        );
        assert(crate::overlay_intent::intents(deferred@)
            =~= Seq::<crate::overlay_intent::Intent>::empty());
    }
    assert(measured(measure, pending@, widths@));
    assert(is_overlay(
        detections@,
        crate::coordination::claims_on(*claims),
        settings,
        bounds,
        pending@,
        widths@,
        commands@,
        crate::overlay_intent::intents(deferred@),
    ));
    let frame = AnalyticsFrame {
        object_count,
        segment_count: 0,
        keypoint_count: 0,
        semantic_tag: None,
    };
    let r = (frame, commands, deferred);
    assert(r.1@ == commands@ && r.2@ == deferred@);
    r
}

/// A deferred label goes where it would have been placed here: among the same regions a
/// compositor finds the same place for it, and draws the same commands.
pub proof fn law_deferred_label_is_placed_alike(
    o: crate::geometry::Occupancy,
    before: crate::placement::Drawn,
    label: PendingLabel,
    text_width: i32,
    settings: Settings,
    intent: LabelIntent,
)
    requires
        intent@ == deferred_label(label@, text_width as int, settings),
        intent.text == label.text,
        label.preferred_x + text_width <= i32::MAX,
        i32::MIN <= label.preferred_x + text_width,
    ensures
        crate::placement::placement_of(
            o,
            intent.preferred,
            crate::placement::candidates_of(intent.kind, intent.anchor, intent.preferred),
        ) == label_placement(o, label, text_width as int),
        label_placement(o, label, text_width as int) matches Some(placement)
            ==> before.with_label(intent, Some(placement)).commands == before.commands
            + label_commands(label, placement, settings.labels_color),
{
    let w = text_width as int;
    assert(intent.preferred.right - intent.preferred.left == w);
    if let Some(placement) = label_placement(o, label, w) {
        assert(before.with_label(intent, Some(placement)).commands =~= before.commands
            + label_commands(label, placement, settings.labels_color));
    }
}

/// Where the label at `m` goes, after those ahead of it.
pub open spec fn placed_label(
    o: crate::geometry::Occupancy,
    labels: Seq<PendingLabel>,
    widths: Seq<i32>,
    color: u32,
    m: int,
) -> Option<LabelPlacement> {
    label_placement(
        labelled(o, labels.take(m), widths, color).occupancy,
        labels[m],
        widths[m] as int,
    )
}

/// The position shares no pixel of the frame with one of the first `n` labels.
pub open spec fn misses_labels(
    o: crate::geometry::Occupancy,
    labels: Seq<PendingLabel>,
    widths: Seq<i32>,
    color: u32,
    n: int,
    position: Rect,
) -> bool {
    forall|m: int|
        0 <= m < n ==> (#[trigger] placed_label(o, labels, widths, color, m) matches Some(placement)
            ==> crate::placement::misses(o.frame, position, placement.rect))
}

/// Placed labels leave just those positions clear that miss all of them.
pub proof fn law_clear_positions_miss_labels(
    o: crate::geometry::Occupancy,
    labels: Seq<PendingLabel>,
    widths: Seq<i32>,
    color: u32,
    n: int,
    position: Rect,
)
    requires
        o.sound(),
        0 <= n <= labels.len(),
    ensures
        labelled(o, labels.take(n), widths, color).occupancy.sound(),
        labelled(o, labels.take(n), widths, color).occupancy.frame == o.frame,
        crate::placement::clear(labelled(o, labels.take(n), widths, color).occupancy, position)
            == (crate::placement::clear(o, position) && misses_labels(
            o,
            labels,
            widths,
            color,
            n,
            position,
        )),
    decreases n,
{
    if n > 0 {
        let taken = labels.take(n);
        law_clear_positions_miss_labels(o, labels, widths, color, n - 1, position);
        assert(taken.drop_last() =~= labels.take(n - 1));
        assert(taken[n - 1] == labels[n - 1]);
        let before = labelled(o, labels.take(n - 1), widths, color).occupancy;
        if let Some(placement) = placed_label(o, labels, widths, color, n - 1) {
            crate::placement::lemma_clear_with_region(
                before,
                crate::geometry::RegionPriority::Label,
                placement.rect,
                position,
            );
        }
    }
}

/// The position is visible, and shares no pixel of the frame with a box, with hard content
/// that other elements claimed at this element's priority or higher, nor with one of the
/// first `n` labels.
pub open spec fn unobstructed(
    detections: Seq<Detection>,
    claims: Seq<crate::coordination::Claim>,
    settings: Settings,
    bounds: FrameBounds,
    labels: Seq<PendingLabel>,
    widths: Seq<i32>,
    n: int,
    position: Rect,
) -> bool {
    let frame = Rect::of(0, 0, bounds.width as int, bounds.height as int);
    let boxes = box_rects(detections);
    let o = occupied_by_boxes(detections, claims, settings, bounds);
    &&& position.common(frame) is Some
    &&& crate::coordination::misses_claims(
        frame,
        claims,
        Some(OVERLAY_OWNER@),
        settings.priority,
        position,
    )
    &&& forall|i: int|
        0 <= i < boxes.len() ==> crate::placement::misses(frame, position, #[trigger] boxes[i])
    &&& misses_labels(o, labels, widths, settings.labels_color, n, position)
}

/// The clear positions of the label at `n` are those that nothing obstructs.
pub proof fn law_clear_means_unobstructed(
    detections: Seq<Detection>,
    claims: Seq<crate::coordination::Claim>,
    settings: Settings,
    bounds: FrameBounds,
    labels: Seq<PendingLabel>,
    widths: Seq<i32>,
    n: int,
    position: Rect,
)
    requires
        0 <= n <= labels.len(),
    ensures
        crate::placement::clear(
            labelled(
                occupied_by_boxes(detections, claims, settings, bounds),
                labels.take(n),
                widths,
                settings.labels_color,
            ).occupancy,
            position,
        ) == unobstructed(detections, claims, settings, bounds, labels, widths, n, position),
{
    let fresh = crate::geometry::Occupancy::fresh(bounds.width as int, bounds.height as int);
    let owner = Some(OVERLAY_OWNER@);
    let start = crate::coordination::seeded(fresh, claims, owner, settings.priority);
    let o = occupied_by_boxes(detections, claims, settings, bounds);
    let color = settings.labels_color;
    crate::placement::lemma_clear_with_region(
        fresh,
        crate::geometry::RegionPriority::Avoid,
        position,
        position,
    );
    crate::coordination::law_clear_positions_miss_respected_claims(
        fresh,
        claims,
        owner,
        settings.priority,
        position,
    );
    crate::placement::law_clear_positions_miss_highlights(start, box_rects(detections), position);
    law_clear_positions_miss_labels(o, labels, widths, color, n, position);
}

/// A label that has an unobstructed position, be it its default or one of the candidates
/// around its box, is placed in such a one. So it is drawn on no box of the frame: neither
/// its own, nor one drawn later, nor one that overlaps another.
pub proof fn law_labels_take_unobstructed_positions(
    detections: Seq<Detection>,
    claims: Seq<crate::coordination::Claim>,
    settings: Settings,
    bounds: FrameBounds,
    labels: Seq<PendingLabel>,
    widths: Seq<i32>,
    n: int,
    c: int,
)
    requires
        0 <= n < labels.len(),
        ({
            let positions = crate::placement::positions_of(
                label_rect(
                    labels[n].preferred_x as int,
                    labels[n].preferred_y as int,
                    widths[n] as int,
                ),
                crate::placement::box_candidates(labels[n].box_rect, widths[n] as int),
            );
            &&& 0 <= c < positions.len()
            &&& unobstructed(
                detections,
                claims,
                settings,
                bounds,
                labels,
                widths,
                n,
                positions[c],
            )
        }),
    ensures
        placed_label(
            occupied_by_boxes(detections, claims, settings, bounds),
            labels,
            widths,
            settings.labels_color,
            n,
        ) matches Some(placement) && unobstructed(
            detections,
            claims,
            settings,
            bounds,
            labels,
            widths,
            n,
            placement.rect,
        ),
{
    let default = label_rect(
        labels[n].preferred_x as int,
        labels[n].preferred_y as int,
        widths[n] as int,
    );
    let candidates = crate::placement::box_candidates(labels[n].box_rect, widths[n] as int);
    let o = occupied_by_boxes(detections, claims, settings, bounds);
    let color = settings.labels_color;
    let before = labelled(o, labels.take(n), widths, color).occupancy;
    law_clear_means_unobstructed(
        detections,
        claims,
        settings,
        bounds,
        labels,
        widths,
        n,
        crate::placement::positions_of(default, candidates)[c],
    );
    crate::placement::law_best_clear_position_is_taken(before, default, candidates, c);
    law_clear_means_unobstructed(
        detections,
        claims,
        settings,
        bounds,
        labels,
        widths,
        n,
        placed_label(o, labels, widths, color, n)->0.rect,
    );
}

/// There is one command for each box, and in defer mode no other.
pub proof fn law_deferred_labels_are_not_drawn(
    detections: Seq<Detection>,
    claims: Seq<crate::coordination::Claim>,
    settings: Settings,
    bounds: FrameBounds,
    labels: Seq<PendingLabel>,
    widths: Seq<i32>,
    commands: Seq<DrawCommand>,
    deferred: Seq<crate::overlay_intent::Intent>,
)
    requires
        is_overlay(detections, claims, settings, bounds, labels, widths, commands, deferred),
        settings.defer_labels,
    ensures
        commands.len() == box_rects(detections).len(),
        forall|i: int|
            0 <= i < commands.len() ==> !(#[trigger] commands[i] is Text) && !(
            commands[i] is TextCentered),
        deferred.len() == label_jobs(detections, settings).len(),
{
    lemma_boxes_are_drawn(detections, settings);
    assert(jobs(labels).len() == labels.len());
}

proof fn lemma_boxes_are_drawn(detections: Seq<Detection>, settings: Settings)
    ensures
        box_commands(detections, settings).len() == box_rects(detections).len(),
        forall|i: int|
            0 <= i < box_commands(detections, settings).len() ==> !(#[trigger] box_commands(
                detections,
                settings,
            )[i] is Text) && !(box_commands(detections, settings)[i] is TextCentered),
    decreases detections.len(),
{
    if detections.len() > 0 {
        lemma_boxes_are_drawn(detections.drop_last(), settings);
    }
}

/// The box that a detection is drawn by, or would be: the rotated one where there is one, else
/// the upright one.
pub open spec fn chosen_box(detection: Detection) -> BBox {
    if detection.oriented is Some {
        (detection.oriented->0).0
    } else {
        detection.location->0
    }
}

/// The rotation that goes with the chosen box.
pub open spec fn chosen_rotation(detection: Detection) -> Scalar {
    if detection.oriented is Some {
        (detection.oriented->0).1
    } else {
        Scalar::of_int(0)
    }
}

/// Every detection with a readable location and a box that is not empty is drawn, and no
/// other, in their order; `places` tells which. Its command draws that box with its rotation,
/// filled or not as the settings say, in the colour of its track where there is one and
/// tracks give the colour, else in the configured one. The box it takes has its corner and
/// its size.
pub proof fn law_every_readable_box_is_drawn(detections: Seq<Detection>, settings: Settings) -> (
    places: Seq<int>)
    ensures
        crate::coordination::walks(places, detections.len() as int),
        places.len() == box_commands(detections, settings).len(),
        places.len() == box_rects(detections).len(),
        forall|k: int|
            0 <= k < detections.len() ==> places.contains(k) == ((
            #[trigger] detections[k]).location is Some && chosen_box(detections[k]).w > 0
                && chosen_box(detections[k]).h > 0),
        forall|j: int|
            #![trigger places[j]]
            0 <= j < places.len() ==> {
                let detection = detections[places[j]];
                let bbox = chosen_box(detection);
                let rect = box_rects(detections)[j];
                &&& box_commands(detections, settings)[j] == (DrawCommand::Rectangle {
                    x: Scalar::of_int(bbox.x as int),
                    y: Scalar::of_int(bbox.y as int),
                    width: Scalar::of_int(bbox.w as int),
                    height: Scalar::of_int(bbox.h as int),
                    rotation: chosen_rotation(detection),
                    argb: if settings.tracking_outline_colors && detection.tracking is Some {
                        (detection.tracking->0).color
                    } else {
                        settings.object_detection_outline_color
                    },
                    filled: settings.filled_box,
                })
                &&& rect.left == bbox.x
                &&& rect.top == bbox.y
                &&& bbox.x + bbox.w <= i32::MAX ==> rect.right == bbox.x + bbox.w
                &&& bbox.y + bbox.h <= i32::MAX ==> rect.bottom == bbox.y + bbox.h
            },
    decreases detections.len(),
{
    if detections.len() == 0 {
        Seq::empty()
    } else {
        let rest = detections.drop_last();
        let n = rest.len() as int;
        let before = law_every_readable_box_is_drawn(rest, settings);
        assert(forall|k: int| 0 <= k < n ==> rest[k] == detections[k]);
        crate::coordination::lemma_walk_goes_on(before, n);
        let places = if detections[n].location is Some && chosen_box(detections[n]).w > 0
            && chosen_box(detections[n]).h > 0 {
            before.push(n)
        } else {
            before
        };
        assert forall|k: int| 0 <= k < detections.len() implies places.contains(k) == ((
        #[trigger] detections[k]).location is Some && chosen_box(detections[k]).w > 0
            && chosen_box(detections[k]).h > 0) by {
            if k < n {
                assert(rest[k] == detections[k]);
                if places.contains(k) {
                    let i = choose|i: int| 0 <= i < places.len() && places[i] == k;
                    assert(before[i] == k);
                }
            }
        }
        assert forall|j: int| #![trigger places[j]] 0 <= j < before.len() implies places[j]
            == before[j] && rest[before[j]] == detections[before[j]] && box_commands(
            detections,
            settings,
        )[j] == box_commands(rest, settings)[j] && box_rects(detections)[j] == box_rects(
            rest,
        )[j] by {}
        places
    }
}

/// A detection asks for a class label if those are drawn, and behind it for a tracking label
/// if those are drawn and it has a track. The class label names the first class of a related
/// classification, else the object's type, with the confidence in it in brackets; the
/// tracking label the number of the track. Both belong to the drawn box.
pub proof fn law_labels_name_their_objects(detection: Detection, settings: Settings)
    requires
        detection.drawn_box() is Some,
    ensures
        ({
            let list = detection.own_jobs(settings);
            let on_track = settings.draw_tracking_labels && detection.tracking is Some;
            let rect = chosen_box(detection).rect_of();
            let last = list[list.len() - 1];
            &&& list.len() == (if settings.draw_labels {
                1int
            } else {
                0
            }) + (if on_track {
                1int
            } else {
                0
            })
            &&& settings.draw_labels ==> {
                &&& list[0].box_rect == rect
                &&& detection.classification is Some && detection.classification->0@.len() > 0
                    ==> list[0].text == detection.classification->0@[0].label@ + " (c="@
                    + detection.classification->0@[0].level@ + ")"@
                &&& detection.classification is None || detection.classification->0@.len() == 0
                    ==> list[0].text == (if detection.object_type is Some {
                    (detection.object_type->0)@
                } else {
                    "unknown"@
                }) + " (c="@ + detection.confidence@ + ")"@
            }
            &&& on_track ==> {
                &&& last.box_rect == rect
                &&& last.text.take(7) == "Track: "@
                &&& crate::text::number_of(last.text.skip(7)) == (detection.tracking->0).id
            }
        }),
{
    if settings.draw_tracking_labels && detection.tracking is Some {
        let id = (detection.tracking->0).id as int;
        reveal_strlit("Track: ");
        crate::text::law_decimals_read_as_their_number(id);
        assert(track_label(id).take(7) =~= "Track: "@);
        assert(track_label(id).skip(7) =~= crate::text::decimal(id));
    }
}

/// By default a class label stands on the top edge of its object's location and a tracking
/// label two pixels below the bottom edge, both starting at its left edge, one line high and
/// as wide as their text.
pub proof fn law_labels_stand_above_and_tracks_below(
    detection: Detection,
    settings: Settings,
    text_width: int,
)
    requires
        detection.drawn_box() is Some,
        0 <= text_width,
        (detection.location->0).x + text_width <= i32::MAX,
        i32::MIN <= (detection.location->0).y - 14,
        i32::MIN <= (detection.location->0).y + (detection.location->0).h,
        (detection.location->0).y + (detection.location->0).h + 14 <= i32::MAX,
    ensures
        ({
            let list = detection.own_jobs(settings);
            let location = detection.location->0;
            forall|i: int| #![trigger list[i]]
                0 <= i < list.len() ==> {
                    let rect = label_rect(
                        list[i].preferred_x as int,
                        list[i].preferred_y as int,
                        text_width,
                    );
                    &&& rect.left == location.x
                    &&& rect.right == location.x + text_width
                    &&& rect.bottom == rect.top + 12
                    &&& i == 0 && settings.draw_labels ==> rect.bottom == location.y
                    &&& i > 0 || !settings.draw_labels ==> rect.top == location.y + location.h + 2
                }
        }),
{
}

/// The labels of a detection follow those of the detections before it; one that is not drawn
/// has none.
pub proof fn law_labels_follow_the_detections(
    detections: Seq<Detection>,
    detection: Detection,
    settings: Settings,
)
    ensures
        label_jobs(Seq::empty(), settings).len() == 0,
        detection.location is None || chosen_box(detection).w <= 0 || chosen_box(detection).h <= 0
            ==> label_jobs(detections.push(detection), settings) == label_jobs(
            detections,
            settings,
        ),
        detection.location is Some && chosen_box(detection).w > 0 && chosen_box(detection).h > 0
            ==> label_jobs(detections.push(detection), settings) == label_jobs(
            detections,
            settings,
        ) + detection.own_jobs(settings),
{
    assert(detections.push(detection).drop_last() =~= detections);
}

/// A placed label is drawn with its own text in the given colour, from the left edge of its
/// place and standing on the bottom edge. Only a displaced one gets a line of that colour
/// before, from the point of its box that is nearest to the label's middle to the point of
/// the label that is nearest to the box's middle.
pub proof fn law_labels_are_drawn_in_their_place(
    label: PendingLabel,
    placement: LabelPlacement,
    color: u32,
)
    requires
        label.box_rect.left <= label.box_rect.right,
        label.box_rect.top <= label.box_rect.bottom,
        placement.rect.left <= placement.rect.right,
        placement.rect.top <= placement.rect.bottom,
    ensures
        ({
            let rect = placement.rect;
            let bbox = label.box_rect;
            let list = label_commands(label, placement, color);
            &&& list.len() == if placement.displaced {
                2int
            } else {
                1
            }
            &&& list[list.len() - 1] == (DrawCommand::Text {
                x: Scalar::of_int(rect.left as int),
                y: Scalar::of_int(rect.bottom as int),
                text: label.text,
                argb: color,
            })
            &&& placement.displaced ==> (list[0] matches DrawCommand::Line {
                x0,
                y0,
                x1,
                y1,
                argb,
                width,
            } && argb == color && width == Scalar::of_int(1) && exists|
                fx: int,
                fy: int,
                tx: int,
                ty: int,
            |
                #![trigger Scalar::of_int(fx), Scalar::of_int(fy), Scalar::of_int(tx), Scalar::of_int(ty)]
                {
                    &&& x0 == Scalar::of_int(fx)
                    &&& y0 == Scalar::of_int(fy)
                    &&& x1 == Scalar::of_int(tx)
                    &&& y1 == Scalar::of_int(ty)
                    &&& crate::placement::is_nearest(
                        fx,
                        bbox.left as int,
                        bbox.right as int,
                        rect.middle().0,
                    )
                    &&& crate::placement::is_nearest(
                        fy,
                        bbox.top as int,
                        bbox.bottom as int,
                        rect.middle().1,
                    )
                    &&& crate::placement::is_nearest(
                        tx,
                        rect.left as int,
                        rect.right as int,
                        bbox.middle().0,
                    )
                    &&& crate::placement::is_nearest(
                        ty,
                        rect.top as int,
                        rect.bottom as int,
                        bbox.middle().1,
                    )
                })
        }),
{
    let rect = placement.rect;
    let bbox = label.box_rect;
    let (fx, fy) = bbox.nearest(rect.middle().0, rect.middle().1);
    let (tx, ty) = rect.nearest(bbox.middle().0, bbox.middle().1);
    assert(crate::placement::is_nearest(fx, bbox.left as int, bbox.right as int, rect.middle().0));
    assert(crate::placement::is_nearest(fy, bbox.top as int, bbox.bottom as int, rect.middle().1));
    assert(crate::placement::is_nearest(tx, rect.left as int, rect.right as int, bbox.middle().0));
    assert(crate::placement::is_nearest(ty, rect.top as int, rect.bottom as int, bbox.middle().1));
    if placement.displaced {
        assert(label_commands(label, placement, color)[0] == crate::placement::leader_command(
            (fx, fy),
            (tx, ty),
            color,
        ));
    }
}

/// A deferred label is handed on as it would have been placed here: with its text in the
/// configured colour, anchored at its box, preferably in its default position, at this
/// element's priority and under its name.
pub proof fn law_deferred_labels_are_handed_on_whole(
    label: Job,
    text_width: int,
    settings: Settings,
)
    requires
        0 <= text_width,
        label.preferred_x + text_width <= i32::MAX,
        i32::MIN <= label.preferred_y - 12,
    ensures
        ({
            let intent = deferred_label(label, text_width, settings);
            &&& intent.text == label.text
            &&& intent.color == settings.labels_color
            &&& intent.anchor == label.box_rect
            &&& intent.preferred.left == label.preferred_x
            &&& intent.preferred.right == label.preferred_x + text_width
            &&& intent.preferred.bottom == label.preferred_y
            &&& intent.preferred.top == label.preferred_y - 12
            &&& intent.kind == CandidateKind::Box
            &&& intent.priority == settings.priority
            &&& intent.owner == "odoverlay"@
        }),
{
}

} // verus!
