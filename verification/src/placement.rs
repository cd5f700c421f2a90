//! Greedy label placement.
//!
//! A label is tried at its default position first and then at fallback candidates. Hard
//! regions (highlights and labels) are not overlapped while a clear position is left; soft
//! regions are overlapped as little as possible.

use vstd::prelude::*;

use crate::coordination::{seed_registry_from_every_owner, ClaimedRegion};
use crate::geometry::{
    halved, larger, saturating_difference, saturating_sum, OccupiedRegionRegistry, Rect,
    RegionPriority,
};
use crate::ranking::rank_descending;
use crate::overlay_intent::{CandidateKind, LabelIntent};
use crate::render::{DrawCommand, LABEL_LAYOUT_GAP, LABEL_LAYOUT_HEIGHT};
use crate::scalar::Scalar;

verus! {

/// Distance of the near ring of candidates from a point.
pub const CANDIDATE_GAP: i32 = 4;

/// Distance of the far ring of candidates from a point.
pub const CANDIDATE_EXT: i32 = 12;

/// How much further the far ring of candidates lies from a box.
pub const BOX_CANDIDATE_EXT: i32 = 12;

/// Where a label was placed.
#[derive(Debug, Clone, Copy, PartialEq, Eq, Structural)]
pub struct LabelPlacement {
    /// Region the label was placed in.
    pub rect: Rect,
    /// `true` when the label could not be placed at its default position and
    /// was moved to a fallback (or force-placed at the least-overlapping
    /// candidate). Callers should draw a leader line to the labelled feature.
    pub displaced: bool,
}

/// A position is visible and overlaps no hard region.
pub open spec fn clear(o: crate::geometry::Occupancy, rect: Rect) -> bool {
    o.hard_area(crate::geometry::RegionPriority::Label, rect) == Some(0int)
}

/// The area of soft regions that a visible position covers.
pub open spec fn softness(o: crate::geometry::Occupancy, rect: Rect) -> int {
    o.soft_area(rect)->0
}

/// The area of hard regions that a visible position covers.
pub open spec fn hardness(o: crate::geometry::Occupancy, rect: Rect) -> int {
    o.hard_area(crate::geometry::RegionPriority::Label, rect)->0
}

/// `k` is the clear position that covers the least soft area, the earliest of several.
pub open spec fn best_clear(
    o: crate::geometry::Occupancy,
    positions: Seq<Rect>,
    k: int,
) -> bool {
    &&& 0 <= k < positions.len()
    &&& clear(o, positions[k])
    &&& forall|j: int|
        0 <= j < positions.len() && clear(o, #[trigger] positions[j]) ==> softness(o, positions[k])
            <= softness(o, positions[j])
    &&& forall|j: int|
        0 <= j < k && clear(o, #[trigger] positions[j]) ==> softness(o, positions[k]) < softness(
            o,
            positions[j],
        )
}

/// `k` is the visible candidate that covers the least hard area, the earliest of several.
pub open spec fn least_covered(
    o: crate::geometry::Occupancy,
    candidates: Seq<Rect>,
    k: int,
) -> bool {
    &&& 0 <= k < candidates.len()
    &&& o.clip(candidates[k]) is Some
    &&& forall|j: int|
        0 <= j < candidates.len() && o.clip(#[trigger] candidates[j]) is Some ==> hardness(
            o,
            candidates[k],
        ) <= hardness(o, candidates[j])
    &&& forall|j: int|
        0 <= j < k && o.clip(#[trigger] candidates[j]) is Some ==> hardness(o, candidates[k])
            < hardness(o, candidates[j])
}

/// The default position followed by the candidates.
pub open spec fn positions_of(default: Rect, candidates: Seq<Rect>) -> Seq<Rect> {
    seq![default] + candidates
}

/// Where a label goes: to the best clear position if there is one, else to the candidate
/// that covers the least hard area. A label with neither is not placed.
pub open spec fn placement_of(
    o: crate::geometry::Occupancy,
    default: Rect,
    candidates: Seq<Rect>,
) -> Option<LabelPlacement> {
    let positions = positions_of(default, candidates);
    if exists|k: int| best_clear(o, positions, k) {
        let k = choose|k: int| best_clear(o, positions, k);
        Some(LabelPlacement { rect: positions[k], displaced: k > 0 })
    } else if exists|k: int| least_covered(o, candidates, k) {
        let k = choose|k: int| least_covered(o, candidates, k);
        Some(LabelPlacement { rect: candidates[k], displaced: true })
    } else {
        None
    }
}

/// The occupancy with a placed label in it.
pub open spec fn with_placement(
    o: crate::geometry::Occupancy,
    placement: Option<LabelPlacement>,
) -> crate::geometry::Occupancy {
    match placement {
        Some(placement) => o.with_region(crate::geometry::RegionPriority::Label, placement.rect),
        None => o,
    }
}

/// The overlap areas of a position fit in an `i64`.
pub open spec fn areas_fit(o: crate::geometry::Occupancy, rect: Rect) -> bool {
    &&& o.hard_area(crate::geometry::RegionPriority::Label, rect) matches Some(area) ==> area
        <= i64::MAX
    &&& o.soft_area(rect) matches Some(area) ==> area <= i64::MAX
}

/// At most one position is the best clear one.
proof fn lemma_best_clear_is_unique(
    o: crate::geometry::Occupancy,
    positions: Seq<Rect>,
    a: int,
    b: int,
)
    requires
        best_clear(o, positions, a),
        best_clear(o, positions, b),
    ensures
        a == b,
{
    assert(clear(o, positions[a]) && clear(o, positions[b]));
}

/// At most one candidate is the least covered one.
proof fn lemma_least_covered_is_unique(
    o: crate::geometry::Occupancy,
    candidates: Seq<Rect>,
    a: int,
    b: int,
)
    requires
        least_covered(o, candidates, a),
        least_covered(o, candidates, b),
    ensures
        a == b,
{
    assert(o.clip(candidates[a]) is Some && o.clip(candidates[b]) is Some);
}

/// The index of the best clear position.
fn find_best_clear(
    registry: &OccupiedRegionRegistry,
    default: Rect,
    candidates: &[Rect],
) -> (r: Option<usize>)
    requires
        areas_fit(registry@, default),
        forall|i: int| 0 <= i < candidates@.len() ==> areas_fit(registry@, #[trigger] candidates@[i]),
        candidates@.len() < usize::MAX,
    ensures
        match r {
            Some(k) => best_clear(registry@, positions_of(default, candidates@), k as int),
            None => forall|j: int|
                0 <= j < positions_of(default, candidates@).len() ==> !clear(
                    registry@,
                    #[trigger] positions_of(default, candidates@)[j],
                ),
        },
{
    let ghost o = registry@;
    let ghost positions = positions_of(default, candidates@);
    let count: usize = candidates.len() + 1;
    let mut best: Option<(i64, usize)> = None;
    let mut i: usize = 0;
    while i < count
        invariant
            i <= count == positions.len(),
            count == candidates@.len() + 1,
            o == registry@,
            positions == positions_of(default, candidates@),
            areas_fit(o, default),
            forall|j: int| 0 <= j < candidates@.len() ==> areas_fit(o, #[trigger] candidates@[j]),
            match best {
                Some((area, k)) => k < i && area == softness(o, positions[k as int]) && best_clear(
                    o,
                    positions.take(i as int),
                    k as int,
                ),
                None => forall|j: int| 0 <= j < i ==> !clear(o, #[trigger] positions[j]),
            },
        decreases count - i,
    {
        let rect = if i == 0 {
            default
        } else {
            candidates[i - 1]
        };
        assert(rect == positions[i as int]);
        let ghost seen = positions.take(i as int);
        let ghost next = positions.take(i + 1);
        assert(forall|j: int| 0 <= j < i ==> next[j] == seen[j]);
        assert(next[i as int] == rect);
        match registry.label_overlap_area(rect) {
            Some(hard) => {
                if hard == 0 {
                    let soft: i64 = match registry.avoid_overlap_area(rect) {
                        Some(area) => area,
                        None => 0,
                    };
                    assert(clear(o, rect));
                    assert(soft == softness(o, rect));
                    let better = match best {
                        Some((area, _)) => soft < area,
                        None => true,
                    };
                    if better {
                        best = Some((soft, i));
                        assert(best_clear(o, next, i as int));
                    } else {
                        assert(best_clear(o, next, (best->0).1 as int));
                    }
                } else {
                    assert(!clear(o, rect));
                    assert(best is Some ==> best_clear(o, next, (best->0).1 as int));
                }
            },
            None => {
                assert(!clear(o, rect));
                assert(best is Some ==> best_clear(o, next, (best->0).1 as int));
            },
        }
        i = i + 1;
    }
    assert(positions.take(i as int) =~= positions);
    match best {
        Some((_, k)) => Some(k),
        None => None,
    }
}

/// The index of the least covered candidate.
fn find_least_covered(registry: &OccupiedRegionRegistry, candidates: &[Rect]) -> (r: Option<usize>)
    requires
        forall|i: int| 0 <= i < candidates@.len() ==> areas_fit(registry@, #[trigger] candidates@[i]),
    ensures
        match r {
            Some(k) => least_covered(registry@, candidates@, k as int),
            None => forall|j: int|
                0 <= j < candidates@.len() ==> registry@.clip(#[trigger] candidates@[j]) is None,
        },
{
    let ghost o = registry@;
    let mut best: Option<(i64, usize)> = None;
    let mut i: usize = 0;
    while i < candidates.len()
        invariant
            i <= candidates.len(),
            o == registry@,
            forall|j: int| 0 <= j < candidates@.len() ==> areas_fit(o, #[trigger] candidates@[j]),
            match best {
                Some((area, k)) => k < i && area == hardness(o, candidates@[k as int])
                    && least_covered(o, candidates@.take(i as int), k as int),
                None => forall|j: int| 0 <= j < i ==> o.clip(#[trigger] candidates@[j]) is None,
            },
        decreases candidates.len() - i,
    {
        let rect = candidates[i];
        let ghost seen = candidates@.take(i as int);
        let ghost next = candidates@.take(i + 1);
        assert(forall|j: int| 0 <= j < i ==> next[j] == seen[j]);
        assert(next[i as int] == rect);
        match registry.label_overlap_area(rect) {
            Some(hard) => {
                let better = match best {
                    Some((area, _)) => hard < area,
                    None => true,
                };
                if better {
                    best = Some((hard, i));
                    assert(least_covered(o, next, i as int));
                } else {
                    assert(least_covered(o, next, (best->0).1 as int));
                }
            },
            None => {
                assert(best is Some ==> least_covered(o, next, (best->0).1 as int));
            },
        }
        i = i + 1;
    }
    assert(candidates@.take(i as int) =~= candidates@);
    match best {
        Some((_, k)) => Some(k),
        None => None,
    }
}

/// Place a label among hard and soft regions, and reserve the place.
///
/// Among positions free of hard regions, the one with the least soft overlap is taken;
/// the default position is considered first and wins ties. Where every position overlaps
/// a hard region, the label is force-placed at the candidate with the least hard overlap
/// (the default is excluded: it is the position to move away from). Returns `None`
/// when the label has no position in the frame.
pub fn place_label(
    registry: &mut OccupiedRegionRegistry,
    default: Rect,
    candidates: &[Rect],
) -> (r: Option<LabelPlacement>)
    requires
        candidates@.len() < usize::MAX,
        areas_fit(old(registry)@, default),
        forall|i: int|
            0 <= i < candidates@.len() ==> areas_fit(
                old(registry)@,
                #[trigger] candidates@[i],
            ),
    ensures
        final(registry)@.sound(),
        r == placement_of(old(registry)@, default, candidates@),
        final(registry)@ == with_placement(old(registry)@, r),
{
    proof {
        use_type_invariant(&*registry);
    }
    let ghost o = registry@;
    let ghost positions = positions_of(default, candidates@);
    match find_best_clear(registry, default, candidates) {
        Some(k) => {
            let rect = if k == 0 {
                default
            } else {
                candidates[k - 1]
            };
            proof {
                assert(rect == positions[k as int]);
                crate::geometry::law_free_means_no_overlap_area(
                    o,
                    crate::geometry::RegionPriority::Label,
                    rect,
                );
                let chosen = choose|j: int| best_clear(o, positions, j);
                lemma_best_clear_is_unique(o, positions, chosen, k as int);
            }
            let _ = registry.reserve_label(rect);
            return Some(LabelPlacement { rect, displaced: k > 0 });
        },
        None => {
            assert(!exists|j: int| best_clear(o, positions, j)) by {
                assert forall|j: int| !best_clear(o, positions, j) by {
                    if best_clear(o, positions, j) {
                        assert(clear(o, positions[j]));
                    }
                }
            }
        },
    }
    match find_least_covered(registry, candidates) {
        Some(k) => {
            let rect = candidates[k];
            proof {
                let chosen = choose|j: int| least_covered(o, candidates@, j);
                lemma_least_covered_is_unique(o, candidates@, chosen, k as int);
            }
            let _ = registry.force_reserve_label(rect);
            Some(LabelPlacement { rect, displaced: true })
        },
        None => {
            assert(!exists|j: int| least_covered(o, candidates@, j)) by {
                assert forall|j: int| !least_covered(o, candidates@, j) by {
                    if least_covered(o, candidates@, j) {
                        assert(o.clip(candidates@[j]) is Some);
                    }
                }
            }
            None
        },
    }
}

/// The candidates at distance `off` from a point, in order of preference.
pub open spec fn point_ring(x: int, y: int, w: int, h: int, off: int) -> Seq<Rect> {
    let half_w = crate::geometry::half(w);
    let half_h = crate::geometry::half(h);
    seq![
        Rect::of(x - half_w, y - h - off, w, h),
        Rect::of(x - half_w, y + off, w, h),
        Rect::of(x + off, y - half_h, w, h),
        Rect::of(x - w - off, y - half_h, w, h),
        Rect::of(x + off, y - h - off, w, h),
        Rect::of(x - w - off, y - h - off, w, h),
        Rect::of(x + off, y + off, w, h),
        Rect::of(x - w - off, y + off, w, h),
    ]
}

/// The candidates for a label of a point: the near ring, then the far ring.
pub open spec fn point_candidates(x: int, y: int, w: int, h: int) -> Seq<Rect> {
    point_ring(x, y, w, h, CANDIDATE_GAP as int) + point_ring(x, y, w, h, CANDIDATE_EXT as int)
}

/// The corners of the candidates at distance `off` fit in the coordinate range.
pub open spec fn ring_fits(x: int, y: int, w: int, h: int, off: int) -> bool {
    &&& i32::MIN <= x - crate::geometry::half(w) <= i32::MAX
    &&& i32::MIN <= y - crate::geometry::half(h) <= i32::MAX
    &&& x + off <= i32::MAX
    &&& y + off <= i32::MAX
    &&& i32::MIN <= x - w <= i32::MAX
    &&& i32::MIN <= y - h <= i32::MAX
    &&& i32::MIN <= x - w - off
    &&& i32::MIN <= y - h - off
}

/// The corners of all candidates for a label of a point fit in the coordinate range.
pub open spec fn point_fits(x: int, y: int, w: int, h: int) -> bool {
    &&& ring_fits(x, y, w, h, CANDIDATE_GAP as int)
    &&& ring_fits(x, y, w, h, CANDIDATE_EXT as int)
}

fn push_point_ring(
    candidates: &mut Vec<Rect>,
    anchor_x: i32,
    anchor_y: i32,
    label_w: i32,
    label_h: i32,
    off: i32,
)
    requires
        0 <= off,
        ring_fits(anchor_x as int, anchor_y as int, label_w as int, label_h as int, off as int),
    ensures
        final(candidates)@ == old(candidates)@ + point_ring(
            anchor_x as int,
            anchor_y as int,
            label_w as int,
            label_h as int,
            off as int,
        ),
{
    let mid_x: i32 = anchor_x - halved(label_w);
    let mid_y: i32 = anchor_y - halved(label_h);
    let above: i32 = anchor_y - label_h - off;
    let below: i32 = anchor_y + off;
    let right: i32 = anchor_x + off;
    let left: i32 = anchor_x - label_w - off;
    candidates.push(Rect::from_xywh(mid_x, above, label_w, label_h));
    candidates.push(Rect::from_xywh(mid_x, below, label_w, label_h));
    candidates.push(Rect::from_xywh(right, mid_y, label_w, label_h));
    candidates.push(Rect::from_xywh(left, mid_y, label_w, label_h));
    candidates.push(Rect::from_xywh(right, above, label_w, label_h));
    candidates.push(Rect::from_xywh(left, above, label_w, label_h));
    candidates.push(Rect::from_xywh(right, below, label_w, label_h));
    candidates.push(Rect::from_xywh(left, below, label_w, label_h));
    assert(candidates@ =~= old(candidates)@ + point_ring(
        anchor_x as int,
        anchor_y as int,
        label_w as int,
        label_h as int,
        off as int,
    ));
}

/// Fallback positions for a label anchored at a point: above, below, right, left and the
/// four diagonals, near the point first and then further out.
pub fn point_label_candidates(
    anchor_x: i32,
    anchor_y: i32,
    label_w: i32,
    label_h: i32,
) -> (r: Vec<Rect>)
    requires
        point_fits(anchor_x as int, anchor_y as int, label_w as int, label_h as int),
    ensures
        r@ == point_candidates(anchor_x as int, anchor_y as int, label_w as int, label_h as int),
{
    let mut candidates: Vec<Rect> = Vec::new();
    push_point_ring(&mut candidates, anchor_x, anchor_y, label_w, label_h, CANDIDATE_GAP);
    push_point_ring(&mut candidates, anchor_x, anchor_y, label_w, label_h, CANDIDATE_EXT);
    assert(candidates@ =~= point_candidates(
        anchor_x as int,
        anchor_y as int,
        label_w as int,
        label_h as int,
    ));
    candidates
}

/// The rectangle of a one-line label whose text ends at `baseline`.
pub open spec fn line_rect(x: int, baseline: int, label_w: int) -> Rect {
    Rect::of(
        x,
        crate::geometry::saturated(baseline) - LABEL_LAYOUT_HEIGHT,
        label_w,
        LABEL_LAYOUT_HEIGHT as int,
    )
}

/// The candidates at distance `off` from a box, in order of preference. Side labels sit
/// one line below the box top so they don't overhang it.
pub open spec fn box_ring(bbox: Rect, label_w: int, off: int) -> Seq<Rect> {
    let h = LABEL_LAYOUT_HEIGHT as int;
    let width = crate::geometry::saturated(bbox.right - bbox.left);
    let height = crate::geometry::saturated(bbox.bottom - bbox.top);
    let right = crate::geometry::saturated(bbox.left + width);
    let left = crate::geometry::saturated(bbox.left - label_w);
    let bottom = crate::geometry::saturated(bbox.top + height);
    seq![
        line_rect(
            bbox.left as int,
            crate::geometry::int_max(crate::geometry::saturated(bbox.top - off) as int, h),
            label_w,
        ),
        line_rect(bbox.left as int, crate::geometry::saturated(bottom + h) + off, label_w),
        line_rect(right + off, bbox.top + h, label_w),
        line_rect(left - off, bbox.top + h, label_w),
    ]
}

/// The candidates for a label of a box: the near ring, then the far ring.
pub open spec fn box_candidates(bbox: Rect, label_w: int) -> Seq<Rect> {
    box_ring(bbox, label_w, LABEL_LAYOUT_GAP as int) + box_ring(
        bbox,
        label_w,
        LABEL_LAYOUT_GAP + BOX_CANDIDATE_EXT,
    )
}

/// The rectangle of a one-line label whose text ends at `baseline`.
fn line_label_rect(x: i32, baseline: i32, label_w: i32) -> (r: Rect)
    ensures
        r == line_rect(x as int, baseline as int, label_w as int),
{
    Rect::from_xywh(
        x,
        saturating_difference(baseline, LABEL_LAYOUT_HEIGHT),
        label_w,
        LABEL_LAYOUT_HEIGHT,
    )
}

fn push_box_ring(candidates: &mut Vec<Rect>, bbox: Rect, label_w: i32, off: i32)
    requires
        0 <= off,
    ensures
        final(candidates)@ == old(candidates)@ + box_ring(bbox, label_w as int, off as int),
{
    let h: i32 = LABEL_LAYOUT_HEIGHT;
    let right: i32 = saturating_sum(bbox.left, bbox.width());
    let left: i32 = saturating_difference(bbox.left, label_w);
    let side: i32 = saturating_sum(bbox.top, h);
    let bottom: i32 = saturating_sum(bbox.top, bbox.height());
    candidates.push(
        line_label_rect(bbox.left, larger(saturating_difference(bbox.top, off), h), label_w),
    );
    candidates.push(
        line_label_rect(bbox.left, saturating_sum(saturating_sum(bottom, h), off), label_w),
    );
    candidates.push(line_label_rect(saturating_sum(right, off), side, label_w));
    candidates.push(line_label_rect(saturating_difference(left, off), side, label_w));
    assert(candidates@ =~= old(candidates)@ + box_ring(bbox, label_w as int, off as int));
}

/// Fallback positions for a label anchored to a box: above, below, right and left of it,
/// near the box first and then further out.
pub fn box_label_candidates(bbox: Rect, label_w: i32) -> (r: Vec<Rect>)
    ensures
        r@ == box_candidates(bbox, label_w as int),
{
    let mut candidates: Vec<Rect> = Vec::new();
    push_box_ring(&mut candidates, bbox, label_w, LABEL_LAYOUT_GAP);
    push_box_ring(&mut candidates, bbox, label_w, LABEL_LAYOUT_GAP + BOX_CANDIDATE_EXT);
    assert(candidates@ =~= box_candidates(bbox, label_w as int));
    candidates
}

/// The fallback positions for a label of the given kind.
pub open spec fn candidates_of(kind: CandidateKind, anchor: Rect, label: Rect) -> Seq<Rect> {
    let w = crate::geometry::saturated(label.right - label.left) as int;
    let h = crate::geometry::saturated(label.bottom - label.top) as int;
    match kind {
        CandidateKind::Box => box_candidates(anchor, w),
        CandidateKind::Point => point_candidates(anchor.middle().0, anchor.middle().1, w, h),
    }
}

/// The fallback positions for a label of the given kind fit in the coordinate range.
pub open spec fn candidates_fit(kind: CandidateKind, anchor: Rect, label: Rect) -> bool {
    let w = crate::geometry::saturated(label.right - label.left) as int;
    let h = crate::geometry::saturated(label.bottom - label.top) as int;
    match kind {
        CandidateKind::Box => true,
        CandidateKind::Point => anchor.measurable() && point_fits(
            anchor.middle().0,
            anchor.middle().1,
            w,
            h,
        ),
    }
}

/// Fallback positions for a label, generated as its producer would have.
pub fn candidates_for(kind: CandidateKind, anchor: Rect, label: Rect) -> (r: Vec<Rect>)
    requires
        candidates_fit(kind, anchor, label),
    ensures
        r@ == candidates_of(kind, anchor, label),
{
    match kind {
        CandidateKind::Box => box_label_candidates(anchor, label.width()),
        CandidateKind::Point => {
            // The anchor is a zero-sized rect at the point.
            let (x, y) = anchor.center();
            point_label_candidates(x, y, label.width(), label.height())
        },
    }
}

/// The ends of a leader line: on the feature the point nearest to the label's center, on
/// the label the point nearest to the feature's center.
pub open spec fn leader_of(feature: Rect, label: Rect) -> ((int, int), (int, int)) {
    (
        feature.nearest(label.middle().0, label.middle().1),
        label.nearest(feature.middle().0, feature.middle().1),
    )
}

/// The ends of a leader line from a feature to its label.
pub fn leader_endpoints(feature: Rect, label: Rect) -> (r: ((i32, i32), (i32, i32)))
    requires
        feature.measurable(),
        label.measurable(),
    ensures
        r.0.0 == leader_of(feature, label).0.0,
        r.0.1 == leader_of(feature, label).0.1,
        r.1.0 == leader_of(feature, label).1.0,
        r.1.1 == leader_of(feature, label).1.1,
{
    let from = feature.closest_point_to(label.center());
    let to = label.closest_point_to(feature.center());
    (from, to)
}

/// The command that draws a leader line.
pub open spec fn leader_command(from: (int, int), to: (int, int), argb: u32) -> DrawCommand {
    DrawCommand::Line {
        x0: Scalar::of_int(from.0),
        y0: Scalar::of_int(from.1),
        x1: Scalar::of_int(to.0),
        y1: Scalar::of_int(to.1),
        argb,
        width: crate::render::leader_line_width(),
    }
}

/// Draw a leader line.
pub fn push_leader_line(
    commands: &mut Vec<DrawCommand>,
    from: (i32, i32),
    to: (i32, i32),
    argb: u32,
)
    ensures
        final(commands)@ == old(commands)@.push(
            leader_command((from.0 as int, from.1 as int), (to.0 as int, to.1 as int), argb),
        ),
{
    commands.push(
        DrawCommand::Line {
            x0: Scalar::from_i32(from.0),
            y0: Scalar::from_i32(from.1),
            x1: Scalar::from_i32(to.0),
            y1: Scalar::from_i32(to.1),
            argb,
            width: Scalar::from_i32(1),
        },
    );
}

/// The command that draws a label's text in its place.
pub open spec fn text_command(intent: LabelIntent, rect: Rect) -> DrawCommand {
    match intent.kind {
        CandidateKind::Box => DrawCommand::Text {
            x: Scalar::of_int(rect.left as int),
            y: Scalar::of_int(rect.bottom as int),
            text: intent.text,
            argb: intent.color,
        },
        CandidateKind::Point => DrawCommand::TextCentered {
            x: Scalar::of_int(rect.middle().0),
            y: Scalar::of_int(rect.middle().1),
            text: intent.text,
            argb: intent.color,
        },
    }
}

/// The command that draws a label's text in its place.
pub fn label_text_command(intent: &LabelIntent, rect: Rect) -> (r: DrawCommand)
    requires
        intent.kind == CandidateKind::Point ==> rect.measurable(),
    ensures
        r == text_command(*intent, rect),
{
    match intent.kind {
        CandidateKind::Box => DrawCommand::Text {
            x: Scalar::from_i32(rect.left),
            y: Scalar::from_i32(rect.bottom),
            text: intent.text.clone(),
            argb: intent.color,
        },
        CandidateKind::Point => {
            let (cx, cy) = rect.center();
            DrawCommand::TextCentered {
                x: Scalar::from_i32(cx),
                y: Scalar::from_i32(cy),
                text: intent.text.clone(),
                argb: intent.color,
            }
        },
    }
}

/// The priorities of the labels.
pub open spec fn priorities(intents: Seq<LabelIntent>) -> Seq<i64> {
    Seq::new(intents.len(), |i: int| intents[i].priority as i64)
}

/// `order` holds the labels, each once, as they are placed: highest priority first; ties
/// keep their input order.
pub open spec fn is_order(order: Seq<usize>, intents: Seq<LabelIntent>) -> bool {
    crate::ranking::is_ranking(order, priorities(intents), intents.len() as int)
}

/// There is only one order in which labels are placed.
pub proof fn law_placement_order_is_unique(
    a: Seq<usize>,
    b: Seq<usize>,
    intents: Seq<LabelIntent>,
)
    requires
        is_order(a, intents),
        is_order(b, intents),
    ensures
        a == b,
{
    crate::ranking::law_ranking_is_unique(a, b, priorities(intents), intents.len() as int);
}

/// The labels in the order in which they are placed: highest priority first; ties keep
/// their input order.
fn label_order(intents: &[LabelIntent]) -> (r: Vec<usize>)
    ensures
        is_order(r@, intents@),
{
    let mut keys: Vec<i64> = Vec::new();
    let mut i: usize = 0;
    while i < intents.len()
        invariant
            i <= intents.len(),
            keys@ == priorities(intents@).take(i as int),
        decreases intents.len() - i,
    {
        keys.push(intents[i].priority as i64);
        assert(keys@ =~= priorities(intents@).take(i + 1));
        i = i + 1;
    }
    assert(keys@ =~= priorities(intents@));
    rank_descending(&keys)
}

/// An occupancy with highlights reserved for a list of rectangles, in order, whatever they
/// overlap.
pub open spec fn highlighted(
    o: crate::geometry::Occupancy,
    rects: Seq<Rect>,
) -> crate::geometry::Occupancy
    decreases rects.len(),
{
    if rects.len() == 0 {
        o
    } else {
        highlighted(o, rects.drop_last()).with_region(
            crate::geometry::RegionPriority::Highlight,
            rects.last(),
        )
    }
}

/// What a label of the given priority has to steer around: the anchored content of that
/// priority or higher, and the labels placed before it.
pub open spec fn surroundings(
    width: int,
    height: int,
    claims: Seq<crate::coordination::Claim>,
    placed: Seq<Rect>,
    priority: i32,
) -> crate::geometry::Occupancy {
    highlighted(
        crate::coordination::seeded(
            crate::geometry::Occupancy::fresh(width, height),
            claims,
            None,
            priority,
        ),
        placed,
    )
}

/// The rectangles of the labels placed so far, and the commands that draw them.
#[verifier::ext_equal]
pub struct Drawn {
    pub placed: Seq<Rect>,
    pub commands: Seq<DrawCommand>,
}

impl Drawn {
    /// With one more label, wherever `placement` puts it.
    pub open spec fn with_label(
        self,
        intent: LabelIntent,
        placement: Option<LabelPlacement>,
    ) -> Drawn {
        match placement {
            Some(placement) => {
                let ends = leader_of(intent.anchor, placement.rect);
                let led = if placement.displaced {
                    self.commands.push(leader_command(ends.0, ends.1, intent.color))
                } else {
                    self.commands
                };
                Drawn {
                    placed: self.placed.push(placement.rect),
                    commands: led.push(text_command(intent, placement.rect)),
                }
            },
            None => self,
        }
    }
}

/// Where a label goes after the ones in `placed`.
pub open spec fn next_placement(
    width: int,
    height: int,
    claims: Seq<crate::coordination::Claim>,
    placed: Seq<Rect>,
    intent: LabelIntent,
) -> Option<LabelPlacement> {
    placement_of(
        surroundings(width, height, claims, placed, intent.priority),
        intent.preferred,
        candidates_of(intent.kind, intent.anchor, intent.preferred),
    )
}

/// The labels of `order` placed one after the other.
pub open spec fn drawn(
    width: int,
    height: int,
    claims: Seq<crate::coordination::Claim>,
    intents: Seq<LabelIntent>,
    order: Seq<usize>,
) -> Drawn
    decreases order.len(),
{
    if order.len() == 0 {
        Drawn { placed: Seq::empty(), commands: Seq::empty() }
    } else {
        let before = drawn(width, height, claims, intents, order.drop_last());
        let intent = intents[order.last() as int];
        before.with_label(
            intent,
            next_placement(width, height, claims, before.placed, intent),
        )
    }
}

/// The arithmetic of placing a label stays within the coordinate range.
pub open spec fn placeable(intent: LabelIntent) -> bool {
    &&& intent.anchor.measurable()
    &&& intent.kind == CandidateKind::Point ==> intent.preferred.measurable()
    &&& candidates_fit(intent.kind, intent.anchor, intent.preferred)
}

proof fn lemma_of_is_measurable(x: int, y: int, w: int, h: int)
    requires
        i32::MIN <= w <= i32::MAX,
        i32::MIN <= h <= i32::MAX,
    ensures
        Rect::of(x, y, w, h).measurable(),
{
}

proof fn lemma_point_ring_is_measurable(x: int, y: int, w: int, h: int, off: int, k: int)
    requires
        i32::MIN <= w <= i32::MAX,
        i32::MIN <= h <= i32::MAX,
        0 <= k < 8,
    ensures
        point_ring(x, y, w, h, off)[k].measurable(),
{
    let r = point_ring(x, y, w, h, off)[k];
    let half_w = crate::geometry::half(w);
    let half_h = crate::geometry::half(h);
    lemma_of_is_measurable(x - half_w, y - h - off, w, h);
    lemma_of_is_measurable(x - half_w, y + off, w, h);
    lemma_of_is_measurable(x + off, y - half_h, w, h);
    lemma_of_is_measurable(x - w - off, y - half_h, w, h);
    lemma_of_is_measurable(x + off, y - h - off, w, h);
    lemma_of_is_measurable(x - w - off, y - h - off, w, h);
    lemma_of_is_measurable(x + off, y + off, w, h);
    lemma_of_is_measurable(x - w - off, y + off, w, h);
}

proof fn lemma_box_ring_is_measurable(bbox: Rect, w: int, off: int, k: int)
    requires
        i32::MIN <= w <= i32::MAX,
        0 <= k < 4,
    ensures
        box_ring(bbox, w, off)[k].measurable(),
{
    assert forall|x: int, y: int| (#[trigger] line_rect(x, y, w)).measurable() by {
        lemma_of_is_measurable(
            x,
            crate::geometry::saturated(y) - LABEL_LAYOUT_HEIGHT,
            w,
            LABEL_LAYOUT_HEIGHT as int,
        );
    }
}

/// Every candidate has extents that fit in an `i32`.
proof fn lemma_candidates_are_measurable(kind: CandidateKind, anchor: Rect, label: Rect)
    ensures
        forall|k: int|
            0 <= k < candidates_of(kind, anchor, label).len() ==> (#[trigger] candidates_of(
                kind,
                anchor,
                label,
            )[k]).measurable(),
{
    let w = crate::geometry::saturated(label.right - label.left) as int;
    let h = crate::geometry::saturated(label.bottom - label.top) as int;
    let candidates = candidates_of(kind, anchor, label);
    assert forall|k: int| 0 <= k < candidates.len() implies (
    #[trigger] candidates[k]).measurable() by {
        match kind {
            CandidateKind::Box => {
                if k < 4 {
                    lemma_box_ring_is_measurable(anchor, w, LABEL_LAYOUT_GAP as int, k);
                } else {
                    lemma_box_ring_is_measurable(
                        anchor,
                        w,
                        LABEL_LAYOUT_GAP + BOX_CANDIDATE_EXT,
                        k - 4,
                    );
                }
            },
            CandidateKind::Point => {
                let (x, y) = anchor.middle();
                if k < 8 {
                    lemma_point_ring_is_measurable(x, y, w, h, CANDIDATE_GAP as int, k);
                } else {
                    lemma_point_ring_is_measurable(x, y, w, h, CANDIDATE_EXT as int, k - 8);
                }
            },
        }
    }
}

/// A rectangle that a label may be placed in has extents that fit in an `i32`, unless it
/// is the preferred one.
proof fn lemma_placed_is_measurable(o: crate::geometry::Occupancy, intent: LabelIntent)
    ensures
        placement_of(
            o,
            intent.preferred,
            candidates_of(intent.kind, intent.anchor, intent.preferred),
        ) matches Some(placement) ==> {
            &&& placement.displaced ==> placement.rect.measurable()
            &&& !placement.displaced ==> placement.rect == intent.preferred
        },
{
    let candidates = candidates_of(intent.kind, intent.anchor, intent.preferred);
    let positions = positions_of(intent.preferred, candidates);
    lemma_candidates_are_measurable(intent.kind, intent.anchor, intent.preferred);
    if exists|k: int| best_clear(o, positions, k) {
        let k = choose|k: int| best_clear(o, positions, k);
        if k > 0 {
            assert(positions[k] == candidates[k - 1]);
        }
    } else if exists|k: int| least_covered(o, candidates, k) {
        let k = choose|k: int| least_covered(o, candidates, k);
        assert(0 <= k < candidates.len());
    }
}

/// Reserve a highlight for every rectangle of a list, whatever it overlaps.
fn reserve_highlights(registry: &mut OccupiedRegionRegistry, rects: &Vec<Rect>)
    ensures
        final(registry)@.sound(),
        final(registry)@ == highlighted(old(registry)@, rects@),
        final(registry)@.frame == old(registry)@.frame,
        final(registry)@.regions.len() <= old(registry)@.regions.len() + rects@.len(),
{
    proof {
        use_type_invariant(&*registry);
    }
    let mut i: usize = 0;
    assert(rects@.take(0) =~= Seq::<Rect>::empty());
    while i < rects.len()
        invariant
            i <= rects.len(),
            registry@.sound(),
            registry@ == highlighted(old(registry)@, rects@.take(i as int)),
            registry@.frame == old(registry)@.frame,
            registry@.regions.len() <= old(registry)@.regions.len() + i,
        decreases rects.len() - i,
    {
        proof {
            let next = rects@.take(i + 1);
            assert(next.drop_last() =~= rects@.take(i as int));
            assert(next.last() == rects@[i as int]);
        }
        let _ = registry.force_reserve(RegionPriority::Highlight, rects[i]);
        i = i + 1;
    }
    assert(rects@.take(i as int) =~= rects@);
}

/// Place deferred labels and draw them.
///
/// Labels are placed in order of their priority, the highest first; ties keep their input
/// order. Each label avoids the anchored content that was claimed at its priority or
/// higher, and the labels placed before it. A displaced label gets a leader line to the
/// feature it belongs to. A label with no position in the frame is left out.
pub fn place_labels(
    width: i32,
    height: i32,
    claims: &[ClaimedRegion],
    intents: &[LabelIntent],
) -> (r: Vec<DrawCommand>)
    requires
        forall|i: int| 0 <= i < intents@.len() ==> placeable(#[trigger] intents@[i]),
        crate::geometry::frame_takes(
            Rect::of(0, 0, width as int, height as int),
            claims@.len() + intents@.len(),
        ),
    ensures
        exists|order: Seq<usize>|
            is_order(order, intents@) && r@ == (#[trigger] drawn(
                width as int,
                height as int,
                crate::coordination::claims(claims@),
                intents@,
                order,
            )).commands,
{
    let order = label_order(intents);
    let ghost list = crate::coordination::claims(claims@);
    let ghost w = width as int;
    let ghost h = height as int;
    let mut placed: Vec<Rect> = Vec::new();
    let mut commands: Vec<DrawCommand> = Vec::new();
    let mut i: usize = 0;
    assert(order@.take(0) =~= Seq::<usize>::empty());
    while i < order.len()
        invariant
            i <= order.len(),
            w == width,
            h == height,
            is_order(order@, intents@),
            list == crate::coordination::claims(claims@),
            forall|k: int| 0 <= k < intents@.len() ==> placeable(#[trigger] intents@[k]),
            crate::geometry::frame_takes(Rect::of(0, 0, w, h), claims@.len() + intents@.len()),
            placed@.len() <= i,
            placed@ == drawn(w, h, list, intents@, order@.take(i as int)).placed,
            commands@ == drawn(w, h, list, intents@, order@.take(i as int)).commands,
        decreases order.len() - i,
    {
        let ghost before = drawn(w, h, list, intents@, order@.take(i as int));
        proof {
            let next = order@.take(i + 1);
            assert(next.drop_last() =~= order@.take(i as int));
            assert(next.last() == order@[i as int]);
        }
        let intent = &intents[order[i]];
        assert(placeable(*intent));
        let mut registry = OccupiedRegionRegistry::new(width, height);
        // Avoid anchored content at this label's priority or higher, whoever drew it.
        seed_registry_from_every_owner(&mut registry, claims, intent.priority);
        // Avoid labels already placed (all of priority >= this one).
        reserve_highlights(&mut registry, &placed);
        let ghost o = registry@;
        assert(o == surroundings(w, h, list, placed@, intent.priority));
        let candidates = candidates_for(intent.kind, intent.anchor, intent.preferred);
        proof {
            crate::geometry::lemma_frame_takes_fewer(
                o.frame,
                claims@.len() + intents@.len(),
                o.regions.len(),
            );
            crate::geometry::law_summable_areas_fit(
                o,
                crate::geometry::RegionPriority::Label,
                intent.preferred,
            );
            assert forall|k: int| 0 <= k < candidates@.len() implies areas_fit(
                o,
                #[trigger] candidates@[k],
            ) by {
                crate::geometry::law_summable_areas_fit(
                    o,
                    crate::geometry::RegionPriority::Label,
                    candidates@[k],
                );
            }
            lemma_placed_is_measurable(o, *intent);
        }
        match place_label(&mut registry, intent.preferred, candidates.as_slice()) {
            Some(placement) => {
                placed.push(placement.rect);
                if placement.displaced {
                    let (from, to) = leader_endpoints(intent.anchor, placement.rect);
                    push_leader_line(&mut commands, from, to, intent.color);
                }
                commands.push(label_text_command(intent, placement.rect));
            },
            None => {},
        }
        i = i + 1;
    }
    assert(order@.take(i as int) =~= order@);
    commands
}

/// Some clear position covers the least soft area, if there is a clear one at all.
proof fn lemma_best_clear_exists(o: crate::geometry::Occupancy, positions: Seq<Rect>, c: int)
    requires
        0 <= c < positions.len(),
        clear(o, positions[c]),
    ensures
        exists|k: int| best_clear(o, positions, k),
    decreases positions.len(),
{
    let last = positions.len() - 1;
    let rest = positions.drop_last();
    assert(forall|j: int| 0 <= j < last ==> rest[j] == positions[j]);
    if exists|j: int| 0 <= j < last && clear(o, #[trigger] positions[j]) {
        let j = choose|j: int| 0 <= j < last && clear(o, #[trigger] positions[j]);
        assert(clear(o, rest[j]));
        lemma_best_clear_exists(o, rest, j);
        let k = choose|k: int| best_clear(o, rest, k);
        if clear(o, positions[last]) && softness(o, positions[last]) < softness(o, positions[k]) {
            assert(best_clear(o, positions, last));
        } else {
            assert(best_clear(o, positions, k));
        }
    } else {
        assert(c == last);
        assert(best_clear(o, positions, last));
    }
}

/// Some visible candidate covers the least hard area, if there is a visible one at all.
proof fn lemma_least_covered_exists(o: crate::geometry::Occupancy, candidates: Seq<Rect>, c: int)
    requires
        0 <= c < candidates.len(),
        o.clip(candidates[c]) is Some,
    ensures
        exists|k: int| least_covered(o, candidates, k),
    decreases candidates.len(),
{
    let last = candidates.len() - 1;
    let rest = candidates.drop_last();
    assert(forall|j: int| 0 <= j < last ==> rest[j] == candidates[j]);
    if exists|j: int| 0 <= j < last && o.clip(#[trigger] candidates[j]) is Some {
        let j = choose|j: int| 0 <= j < last && o.clip(#[trigger] candidates[j]) is Some;
        assert(o.clip(rest[j]) is Some);
        lemma_least_covered_exists(o, rest, j);
        let k = choose|k: int| least_covered(o, rest, k);
        if o.clip(candidates[last]) is Some && hardness(o, candidates[last]) < hardness(
            o,
            candidates[k],
        ) {
            assert(least_covered(o, candidates, last));
        } else {
            assert(least_covered(o, candidates, k));
        }
    } else {
        assert(c == last);
        assert(least_covered(o, candidates, last));
    }
}

/// A label is placed exactly where its default position is clear or one of the candidates
/// is visible.
pub proof fn law_label_is_placed_where_it_can_be(
    o: crate::geometry::Occupancy,
    default: Rect,
    candidates: Seq<Rect>,
)
    ensures
        (placement_of(o, default, candidates) is Some) == (clear(o, default) || exists|k: int|
            0 <= k < candidates.len() && o.clip(#[trigger] candidates[k]) is Some),
{
    let positions = positions_of(default, candidates);
    assert(positions[0] == default);
    if clear(o, default) {
        lemma_best_clear_exists(o, positions, 0);
    }
    if exists|k: int| 0 <= k < candidates.len() && o.clip(#[trigger] candidates[k]) is Some {
        let k = choose|k: int| 0 <= k < candidates.len() && o.clip(#[trigger] candidates[k]) is Some;
        lemma_least_covered_exists(o, candidates, k);
    }
    if exists|k: int| best_clear(o, positions, k) {
        let k = choose|k: int| best_clear(o, positions, k);
        if k > 0 {
            assert(o.clip(candidates[k - 1]) is Some);
        }
    } else if exists|k: int| least_covered(o, candidates, k) {
        let k = choose|k: int| least_covered(o, candidates, k);
        assert(o.clip(candidates[k]) is Some);
    }
}

/// While a clear position is left, a label overlaps no highlight and no other label, and
/// of the clear positions it takes one that covers the least soft area.
pub proof fn law_labels_take_clear_positions(
    o: crate::geometry::Occupancy,
    default: Rect,
    candidates: Seq<Rect>,
    c: int,
)
    requires
        o.sound(),
        0 <= c < positions_of(default, candidates).len(),
        clear(o, positions_of(default, candidates)[c]),
    ensures
        placement_of(o, default, candidates) matches Some(placement) && {
            &&& clear(o, placement.rect)
            &&& !o.taken(crate::geometry::RegionPriority::Label, placement.rect)
            &&& softness(o, placement.rect) <= softness(o, positions_of(default, candidates)[c])
        },
{
    let positions = positions_of(default, candidates);
    lemma_best_clear_exists(o, positions, c);
    let k = choose|k: int| best_clear(o, positions, k);
    assert(clear(o, positions[k]));
    crate::geometry::law_free_means_no_overlap_area(
        o,
        crate::geometry::RegionPriority::Label,
        positions[k],
    );
}

/// Where some position is clear, a label goes to the earliest of the clear positions that
/// cover the least soft area, the default counting as the first position. It is displaced
/// exactly where that is not the default.
pub proof fn law_best_clear_position_is_taken(
    o: crate::geometry::Occupancy,
    default: Rect,
    candidates: Seq<Rect>,
    c: int,
)
    requires
        0 <= c < positions_of(default, candidates).len(),
        clear(o, positions_of(default, candidates)[c]),
    ensures
        exists|k: int|
            #[trigger] best_clear(o, positions_of(default, candidates), k) && placement_of(
                o,
                default,
                candidates,
            ) == Some(
                LabelPlacement {
                    rect: positions_of(default, candidates)[k],
                    displaced: k != 0,
                },
            ),
{
    let positions = positions_of(default, candidates);
    lemma_best_clear_exists(o, positions, c);
    let k = choose|k: int| best_clear(o, positions, k);
    assert(best_clear(o, positions, k));
}

/// Where nothing soft is reserved, a label goes to the first clear position, and keeps a
/// clear default.
pub proof fn law_first_clear_position_is_taken(
    o: crate::geometry::Occupancy,
    default: Rect,
    candidates: Seq<Rect>,
    c: int,
)
    requires
        forall|i: int|
            0 <= i < o.regions.len() ==> (#[trigger] o.regions[i]).priority
                != crate::geometry::RegionPriority::Avoid,
        0 <= c < positions_of(default, candidates).len(),
        clear(o, positions_of(default, candidates)[c]),
        forall|j: int|
            0 <= j < c ==> !clear(o, #[trigger] positions_of(default, candidates)[j]),
    ensures
        placement_of(o, default, candidates) == Some(
            LabelPlacement { rect: positions_of(default, candidates)[c], displaced: c != 0 },
        ),
{
    let positions = positions_of(default, candidates);
    assert forall|j: int| 0 <= j < positions.len() && clear(o, #[trigger] positions[j]) implies
        softness(o, positions[j]) == 0 by {
        lemma_nothing_soft_is_covered(o.regions, o.clip(positions[j])->0);
    }
    assert(best_clear(o, positions, c));
    let k = choose|k: int| best_clear(o, positions, k);
    lemma_best_clear_is_unique(o, positions, c, k);
}

proof fn lemma_nothing_soft_is_covered(regions: Seq<crate::geometry::OccupiedRegion>, rect: Rect)
    requires
        forall|i: int|
            0 <= i < regions.len() ==> (#[trigger] regions[i]).priority
                != crate::geometry::RegionPriority::Avoid,
    ensures
        crate::geometry::overlap_sum(regions, 2, 2, rect) == 0,
    decreases regions.len(),
{
    if regions.len() > 0 {
        let rest = regions.drop_last();
        assert(forall|i: int| 0 <= i < rest.len() ==> rest[i] == regions[i]);
        lemma_nothing_soft_is_covered(rest, rect);
        assert(regions[regions.len() - 1] == regions.last());
    }
}

/// Where no position is clear and some candidate is visible, a label is displaced to the
/// earliest of the visible candidates that cover the least hard area. What the default
/// covers plays no part: any other default that is not clear leads to the same place.
pub proof fn law_least_covered_candidate_is_taken(
    o: crate::geometry::Occupancy,
    default: Rect,
    candidates: Seq<Rect>,
    c: int,
    other: Rect,
)
    requires
        forall|j: int|
            0 <= j < positions_of(default, candidates).len() ==> !clear(
                o,
                #[trigger] positions_of(default, candidates)[j],
            ),
        0 <= c < candidates.len(),
        o.clip(candidates[c]) is Some,
        !clear(o, other),
    ensures
        exists|k: int|
            #[trigger] least_covered(o, candidates, k) && placement_of(o, default, candidates)
                == Some(LabelPlacement { rect: candidates[k], displaced: true }),
        placement_of(o, other, candidates) == placement_of(o, default, candidates),
{
    let positions = positions_of(default, candidates);
    let others = positions_of(other, candidates);
    lemma_least_covered_exists(o, candidates, c);
    let k = choose|k: int| least_covered(o, candidates, k);
    assert(least_covered(o, candidates, k));
    assert forall|j: int| !best_clear(o, positions, j) by {
        if best_clear(o, positions, j) {
            assert(!clear(o, positions[j]));
        }
    }
    assert forall|j: int| !best_clear(o, others, j) by {
        if best_clear(o, others, j) && j > 0 {
            assert(others[j] == positions[j]);
        }
    }
}

/// A label is left out exactly where its default position is not clear and no candidate is
/// visible, and then nothing is reserved. One that is not displaced is in its default
/// position, a displaced one in one of the candidates; either way it is visible, and the
/// visible part is reserved.
pub proof fn law_placed_labels_are_somewhere_allowed(
    o: crate::geometry::Occupancy,
    default: Rect,
    candidates: Seq<Rect>,
)
    ensures
        (placement_of(o, default, candidates) is None) == (!clear(o, default) && forall|k: int|
            0 <= k < candidates.len() ==> o.clip(#[trigger] candidates[k]) is None),
        match placement_of(o, default, candidates) {
            Some(placement) => {
                &&& !placement.displaced ==> placement.rect == default
                &&& placement.displaced ==> candidates.contains(placement.rect)
                &&& placement.rect.common(o.frame) matches Some(visible)
                    && with_placement(o, Some(placement)).regions == o.regions.push(
                    crate::geometry::OccupiedRegion {
                        priority: crate::geometry::RegionPriority::Label,
                        rect: visible,
                    },
                )
            },
            None => with_placement(o, None) == o,
        },
{
    let positions = positions_of(default, candidates);
    law_label_is_placed_where_it_can_be(o, default, candidates);
    if exists|k: int| best_clear(o, positions, k) {
        let k = choose|k: int| best_clear(o, positions, k);
        if k > 0 {
            assert(positions[k] == candidates[k - 1]);
        }
    } else if exists|k: int| least_covered(o, candidates, k) {
        let k = choose|k: int| least_covered(o, candidates, k);
        assert(candidates.contains(candidates[k]));
    }
}

/// A label of a box has the candidates of that box, a label of a point those of the point;
/// of the label only the size counts, not where it is.
pub proof fn law_candidates_follow_the_kind(anchor: Rect, label: Rect, other: Rect)
    requires
        other.right - other.left == label.right - label.left,
        other.bottom - other.top == label.bottom - label.top,
    ensures
        candidates_of(CandidateKind::Box, anchor, label) == box_candidates(
            anchor,
            crate::geometry::saturated(label.right - label.left) as int,
        ),
        anchor.right == anchor.left && anchor.bottom == anchor.top ==> candidates_of(
            CandidateKind::Point,
            anchor,
            label,
        ) == point_candidates(
            anchor.left as int,
            anchor.top as int,
            crate::geometry::saturated(label.right - label.left) as int,
            crate::geometry::saturated(label.bottom - label.top) as int,
        ),
        forall|kind: CandidateKind|
            #[trigger] candidates_of(kind, anchor, other) == candidates_of(kind, anchor, label),
{
}

/// A default position that is clear of hard and soft regions is kept.
pub proof fn law_clear_default_is_kept(
    o: crate::geometry::Occupancy,
    default: Rect,
    candidates: Seq<Rect>,
)
    requires
        o.sound(),
        clear(o, default),
        softness(o, default) == 0,
    ensures
        placement_of(o, default, candidates) == Some(
            LabelPlacement { rect: default, displaced: false },
        ),
{
    let positions = positions_of(default, candidates);
    assert(positions[0] == default);
    lemma_best_clear_exists(o, positions, 0);
    let k = choose|k: int| best_clear(o, positions, k);
    if k > 0 {
        assert(softness(o, positions[k]) < 0);
        lemma_softness_is_not_negative(o, positions[k]);
    }
}

proof fn lemma_softness_is_not_negative(o: crate::geometry::Occupancy, rect: Rect)
    requires
        o.clip(rect) is Some,
    ensures
        softness(o, rect) >= 0,
{
    lemma_overlap_sum_is_not_negative(o.regions, o.clip(rect)->0);
}

proof fn lemma_overlap_sum_is_not_negative(
    regions: Seq<crate::geometry::OccupiedRegion>,
    rect: Rect,
)
    requires
        !rect.vacant(),
    ensures
        crate::geometry::overlap_sum(regions, 2, 2, rect) >= 0,
    decreases regions.len(),
{
    if regions.len() > 0 {
        lemma_overlap_sum_is_not_negative(regions.drop_last(), rect);
        crate::geometry::lemma_shared_area_bound(regions.last().rect, rect);
    }
}

/// A label moves away from its default position, or covers a hard region, only where the
/// default is hidden, covers a hard region, or covers more soft area than the new place.
pub proof fn law_displaced_labels_had_a_reason(
    o: crate::geometry::Occupancy,
    default: Rect,
    candidates: Seq<Rect>,
)
    ensures
        placement_of(o, default, candidates) matches Some(placement) ==> placement.displaced ==> (
        !clear(o, default) || (clear(o, placement.rect) && softness(o, placement.rect) < softness(
            o,
            default,
        ))),
        placement_of(o, default, candidates) matches Some(placement) ==> !clear(
            o,
            placement.rect,
        ) ==> forall|k: int|
            0 <= k < positions_of(default, candidates).len() ==> !clear(
                o,
                #[trigger] positions_of(default, candidates)[k],
            ),
{
    let positions = positions_of(default, candidates);
    assert(positions[0] == default);
    if exists|c: int| 0 <= c < positions.len() && clear(o, #[trigger] positions[c]) {
        let c = choose|c: int| 0 <= c < positions.len() && clear(o, #[trigger] positions[c]);
        lemma_best_clear_exists(o, positions, c);
        let k = choose|k: int| best_clear(o, positions, k);
        assert(clear(o, positions[k]));
    }
}

/// The ends of a leader line lie on the feature and on the label.
pub proof fn law_leader_ends_on_both(feature: Rect, label: Rect)
    requires
        feature.left <= feature.right,
        feature.top <= feature.bottom,
        label.left <= label.right,
        label.top <= label.bottom,
    ensures
        feature.left <= leader_of(feature, label).0.0 <= feature.right,
        feature.top <= leader_of(feature, label).0.1 <= feature.bottom,
        label.left <= leader_of(feature, label).1.0 <= label.right,
        label.top <= leader_of(feature, label).1.1 <= label.bottom,
{
}

/// No candidate for a label of a point covers the point.
pub proof fn law_point_candidates_spare_the_point(x: int, y: int, w: int, h: int, k: int)
    requires
        point_fits(x, y, w, h),
        i32::MIN <= x <= i32::MAX,
        i32::MIN <= y <= i32::MAX,
        0 <= w <= i32::MAX,
        0 <= h <= i32::MAX,
        0 <= k < 16,
    ensures
        point_candidates(x, y, w, h).len() == 16,
        !point_candidates(x, y, w, h)[k].covers(x, y),
{
    let near = point_ring(x, y, w, h, CANDIDATE_GAP as int);
    let far = point_ring(x, y, w, h, CANDIDATE_EXT as int);
    if k < 8 {
        assert(point_candidates(x, y, w, h)[k] == near[k]);
    } else {
        assert(point_candidates(x, y, w, h)[k] == far[k - 8]);
    }
}

/// Every label of `order` found a clear position, or none at all.
pub open spec fn placed_clear(
    width: int,
    height: int,
    claims: Seq<crate::coordination::Claim>,
    intents: Seq<LabelIntent>,
    order: Seq<usize>,
) -> bool
    decreases order.len(),
{
    order.len() == 0 || {
        let before = drawn(width, height, claims, intents, order.drop_last());
        let intent = intents[order.last() as int];
        &&& placed_clear(width, height, claims, intents, order.drop_last())
        &&& next_placement(width, height, claims, before.placed, intent) matches Some(placement)
            ==> clear(
            surroundings(width, height, claims, before.placed, intent.priority),
            placement.rect,
        )
    }
}

/// No two of the rectangles share a pixel of the frame.
pub open spec fn apart(frame: Rect, rects: Seq<Rect>) -> bool {
    forall|i: int, j: int|
        0 <= i < j < rects.len() && rects[i].common(frame) is Some && rects[j].common(frame) is Some
            ==> !(#[trigger] rects[i]).common(frame)->0.meets(
            (#[trigger] rects[j]).common(frame)->0,
        )
}

/// The position and the rectangle share no pixel of the frame.
pub open spec fn misses(frame: Rect, position: Rect, rect: Rect) -> bool {
    match (position.common(frame), rect.common(frame)) {
        (Some(seen), Some(other)) => !other.meets(seen),
        _ => true,
    }
}

/// A position is clear in a frame with nothing reserved exactly where it is visible, and one
/// more region leaves just those positions clear that it misses, unless it is soft.
pub(crate) proof fn lemma_clear_with_region(
    o: crate::geometry::Occupancy,
    priority: crate::geometry::RegionPriority,
    rect: Rect,
    position: Rect,
)
    requires
        o.sound(),
    ensures
        o.with_region(priority, rect).sound(),
        o.regions.len() == 0 ==> clear(o, position) == (position.common(o.frame) is Some),
        clear(o.with_region(priority, rect), position) == (clear(o, position) && (priority
            == crate::geometry::RegionPriority::Avoid || misses(o.frame, position, rect))),
{
    let label = crate::geometry::RegionPriority::Label;
    let after = o.with_region(priority, rect);
    assert forall|i: int| 0 <= i < after.regions.len() implies !(
    #[trigger] after.regions[i]).rect.vacant() && after.regions[i].rect.inside(o.frame) by {
        if i < o.regions.len() {
            assert(after.regions[i] == o.regions[i]);
        }
    }
    crate::geometry::law_free_means_no_overlap_area(o, label, position);
    crate::geometry::law_free_means_no_overlap_area(after, label, position);
    if let Some(seen) = position.common(o.frame) {
        let n = o.regions.len() as int;
        if o.taken(label, position) {
            let i = choose|i: int|
                0 <= i < o.regions.len() && (#[trigger] o.regions[i]).priority.rank() <= 1
                    && o.regions[i].rect.meets(seen);
            assert(after.regions[i] == o.regions[i]);
        }
        if rect.common(o.frame) is Some {
            assert(after.regions[n].rect == rect.common(o.frame)->0);
            if after.taken(label, position) {
                let i = choose|i: int|
                    0 <= i < after.regions.len() && (#[trigger] after.regions[i]).priority.rank()
                        <= 1 && after.regions[i].rect.meets(seen);
                if i < n {
                    assert(after.regions[i] == o.regions[i]);
                }
            }
        }
    }
}

/// Highlights leave just those positions clear that miss all of them, also where they overlap
/// one another.
pub proof fn law_clear_positions_miss_highlights(
    o: crate::geometry::Occupancy,
    rects: Seq<Rect>,
    position: Rect,
)
    requires
        o.sound(),
    ensures
        highlighted(o, rects).sound(),
        highlighted(o, rects).frame == o.frame,
        clear(highlighted(o, rects), position) == (clear(o, position) && forall|i: int|
            0 <= i < rects.len() ==> misses(o.frame, position, #[trigger] rects[i])),
    decreases rects.len(),
{
    if rects.len() > 0 {
        let rest = rects.drop_last();
        let last = rects.len() - 1;
        law_clear_positions_miss_highlights(o, rest, position);
        lemma_clear_with_region(
            highlighted(o, rest),
            crate::geometry::RegionPriority::Highlight,
            rects[last],
            position,
        );
        assert(forall|i: int| 0 <= i < last ==> rest[i] == rects[i]);
        if forall|i: int| 0 <= i < rest.len() ==> misses(o.frame, position, #[trigger] rest[i]) {
            assert forall|i: int| 0 <= i < last implies misses(
                o.frame,
                position,
                #[trigger] rects[i],
            ) by {
                assert(rest[i] == rects[i]);
            }
        }
    }
}

/// The position is visible, and shares no pixel of the frame with any content that a label
/// of the given priority has to respect, nor with a label placed before.
pub open spec fn unobstructed(
    width: int,
    height: int,
    claims: Seq<crate::coordination::Claim>,
    placed: Seq<Rect>,
    priority: i32,
    position: Rect,
) -> bool {
    let frame = Rect::of(0, 0, width, height);
    &&& position.common(frame) is Some
    &&& crate::coordination::misses_claims(frame, claims, None, priority, position)
    &&& forall|i: int| 0 <= i < placed.len() ==> misses(frame, position, #[trigger] placed[i])
}

/// The clear positions of a label are those that nothing obstructs.
pub proof fn law_clear_means_unobstructed(
    width: int,
    height: int,
    claims: Seq<crate::coordination::Claim>,
    placed: Seq<Rect>,
    priority: i32,
    position: Rect,
)
    ensures
        clear(surroundings(width, height, claims, placed, priority), position) == unobstructed(
            width,
            height,
            claims,
            placed,
            priority,
            position,
        ),
{
    let fresh = crate::geometry::Occupancy::fresh(width, height);
    lemma_clear_with_region(
        fresh,
        crate::geometry::RegionPriority::Avoid,
        position,
        position,
    );
    crate::coordination::law_clear_positions_miss_respected_claims(
        fresh,
        claims,
        None,
        priority,
        position,
    );
    law_clear_positions_miss_highlights(
        crate::coordination::seeded(fresh, claims, None, priority),
        placed,
        position,
    );
}

/// A label that has an unobstructed position, be it the preferred one or one of its
/// candidates, is placed in such a one: on no label that was placed before it, and on no
/// hard content of its priority or higher, whoever drew that.
pub proof fn law_labels_take_unobstructed_positions(
    width: int,
    height: int,
    claims: Seq<crate::coordination::Claim>,
    placed: Seq<Rect>,
    intent: LabelIntent,
    c: int,
)
    requires
        ({
            let positions = positions_of(
                intent.preferred,
                candidates_of(intent.kind, intent.anchor, intent.preferred),
            );
            &&& 0 <= c < positions.len()
            &&& unobstructed(width, height, claims, placed, intent.priority, positions[c])
        }),
    ensures
        next_placement(width, height, claims, placed, intent) matches Some(placement)
            && unobstructed(width, height, claims, placed, intent.priority, placement.rect),
{
    let o = surroundings(width, height, claims, placed, intent.priority);
    let candidates = candidates_of(intent.kind, intent.anchor, intent.preferred);
    let positions = positions_of(intent.preferred, candidates);
    law_clear_means_unobstructed(
        width,
        height,
        claims,
        placed,
        intent.priority,
        positions[c],
    );
    law_best_clear_position_is_taken(o, intent.preferred, candidates, c);
    let placement = next_placement(width, height, claims, placed, intent)->0;
    law_clear_means_unobstructed(
        width,
        height,
        claims,
        placed,
        intent.priority,
        placement.rect,
    );
}

/// As long as every label finds a clear position, no two labels overlap.
pub proof fn law_clear_labels_stay_apart(
    width: int,
    height: int,
    claims: Seq<crate::coordination::Claim>,
    intents: Seq<LabelIntent>,
    order: Seq<usize>,
)
    requires
        placed_clear(width, height, claims, intents, order),
    ensures
        apart(Rect::of(0, 0, width, height), drawn(width, height, claims, intents, order).placed),
    decreases order.len(),
{
    if order.len() > 0 {
        law_clear_labels_stay_apart(width, height, claims, intents, order.drop_last());
        let frame = Rect::of(0, 0, width, height);
        let before = drawn(width, height, claims, intents, order.drop_last());
        let intent = intents[order.last() as int];
        let after = drawn(width, height, claims, intents, order);
        if let Some(placement) = next_placement(width, height, claims, before.placed, intent) {
            let n = before.placed.len() as int;
            law_clear_means_unobstructed(
                width,
                height,
                claims,
                before.placed,
                intent.priority,
                placement.rect,
            );
            assert(after.placed == before.placed.push(placement.rect));
            assert forall|i: int| 0 <= i < n && before.placed[i].common(frame) is Some implies !(
            #[trigger] before.placed[i]).common(frame)->0.meets(
                placement.rect.common(frame)->0,
            ) by {
                assert(misses(frame, placement.rect, before.placed[i]));
            }
            assert forall|i: int, j: int|
                0 <= i < j < after.placed.len() && after.placed[i].common(frame) is Some
                    && after.placed[j].common(frame) is Some implies !(
            #[trigger] after.placed[i]).common(frame)->0.meets(
                (#[trigger] after.placed[j]).common(frame)->0,
            ) by {
                assert(after.placed[i] == before.placed[i]);
                if j < n {
                    assert(after.placed[j] == before.placed[j]);
                }
            }
        }
    }
}

/// Every label of `order` has an unobstructed position when its turn comes.
pub open spec fn each_has_room(
    width: int,
    height: int,
    claims: Seq<crate::coordination::Claim>,
    intents: Seq<LabelIntent>,
    order: Seq<usize>,
) -> bool
    decreases order.len(),
{
    order.len() == 0 || {
        let before = drawn(width, height, claims, intents, order.drop_last());
        let intent = intents[order.last() as int];
        let positions = positions_of(
            intent.preferred,
            candidates_of(intent.kind, intent.anchor, intent.preferred),
        );
        &&& each_has_room(width, height, claims, intents, order.drop_last())
        &&& exists|c: int|
            0 <= c < positions.len() && unobstructed(
                width,
                height,
                claims,
                before.placed,
                intent.priority,
                #[trigger] positions[c],
            )
    }
}

/// Where every label has an unobstructed position, all labels are placed, and no two of them
/// overlap.
pub proof fn law_labels_with_room_stay_apart(
    width: int,
    height: int,
    claims: Seq<crate::coordination::Claim>,
    intents: Seq<LabelIntent>,
    order: Seq<usize>,
)
    requires
        each_has_room(width, height, claims, intents, order),
    ensures
        drawn(width, height, claims, intents, order).placed.len() == order.len(),
        placed_clear(width, height, claims, intents, order),
        apart(Rect::of(0, 0, width, height), drawn(width, height, claims, intents, order).placed),
    decreases order.len(),
{
    if order.len() > 0 {
        law_labels_with_room_stay_apart(width, height, claims, intents, order.drop_last());
        let before = drawn(width, height, claims, intents, order.drop_last());
        let intent = intents[order.last() as int];
        let positions = positions_of(
            intent.preferred,
            candidates_of(intent.kind, intent.anchor, intent.preferred),
        );
        let c = choose|c: int|
            0 <= c < positions.len() && unobstructed(
                width,
                height,
                claims,
                before.placed,
                intent.priority,
                #[trigger] positions[c],
            );
        law_labels_take_unobstructed_positions(width, height, claims, before.placed, intent, c);
        law_clear_means_unobstructed(
            width,
            height,
            claims,
            before.placed,
            intent.priority,
            next_placement(width, height, claims, before.placed, intent)->0.rect,
        );
    }
    law_clear_labels_stay_apart(width, height, claims, intents, order);
}

/// A label of a box is placed in a rectangle whose extents fit in an `i32`, if its default
/// position has such.
pub(crate) proof fn lemma_box_placement_is_measurable(
    o: crate::geometry::Occupancy,
    default: Rect,
    bbox: Rect,
    label_w: int,
)
    requires
        default.measurable(),
        i32::MIN <= label_w <= i32::MAX,
    ensures
        placement_of(o, default, box_candidates(bbox, label_w)) matches Some(placement)
            ==> placement.rect.measurable(),
{
    let candidates = box_candidates(bbox, label_w);
    let positions = positions_of(default, candidates);
    assert forall|k: int| 0 <= k < candidates.len() implies (
    #[trigger] candidates[k]).measurable() by {
        if k < 4 {
            lemma_box_ring_is_measurable(bbox, label_w, LABEL_LAYOUT_GAP as int, k);
        } else {
            lemma_box_ring_is_measurable(
                bbox,
                label_w,
                LABEL_LAYOUT_GAP + BOX_CANDIDATE_EXT,
                k - 4,
            );
        }
    }
    if exists|k: int| best_clear(o, positions, k) {
        let k = choose|k: int| best_clear(o, positions, k);
        if k > 0 {
            assert(positions[k] == candidates[k - 1]);
        }
    } else if exists|k: int| least_covered(o, candidates, k) {
        let k = choose|k: int| least_covered(o, candidates, k);
        assert(0 <= k < candidates.len());
    }
}

/// A label of a point is placed in a rectangle whose extents fit in an `i32`, if its
/// default position has such.
pub(crate) proof fn lemma_point_placement_is_measurable(
    o: crate::geometry::Occupancy,
    default: Rect,
    x: int,
    y: int,
    w: int,
    h: int,
)
    requires
        default.measurable(),
        i32::MIN <= w <= i32::MAX,
        i32::MIN <= h <= i32::MAX,
    ensures
        placement_of(o, default, point_candidates(x, y, w, h)) matches Some(placement)
            ==> placement.rect.measurable(),
{
    let candidates = point_candidates(x, y, w, h);
    let positions = positions_of(default, candidates);
    assert forall|k: int| 0 <= k < candidates.len() implies (
    #[trigger] candidates[k]).measurable() by {
        if k < 8 {
            lemma_point_ring_is_measurable(x, y, w, h, CANDIDATE_GAP as int, k);
        } else {
            lemma_point_ring_is_measurable(x, y, w, h, CANDIDATE_EXT as int, k - 8);
        }
    }
    if exists|k: int| best_clear(o, positions, k) {
        let k = choose|k: int| best_clear(o, positions, k);
        if k > 0 {
            assert(positions[k] == candidates[k - 1]);
        }
    } else if exists|k: int| least_covered(o, candidates, k) {
        let k = choose|k: int| least_covered(o, candidates, k);
        assert(0 <= k < candidates.len());
    }
}

/// Whether the candidates for a label of a point fit in the coordinate range.
pub fn point_label_fits(x: i32, y: i32, label_w: i32, label_h: i32) -> (r: bool)
    ensures
        r == point_fits(x as int, y as int, label_w as int, label_h as int),
{
    let far: i64 = CANDIDATE_EXT as i64;
    let low: i64 = i32::MIN as i64;
    let high: i64 = i32::MAX as i64;
    let x: i64 = x as i64;
    let y: i64 = y as i64;
    let w: i64 = label_w as i64;
    let h: i64 = label_h as i64;
    let half_w: i64 = halved(label_w) as i64;
    let half_h: i64 = halved(label_h) as i64;
    low <= x - half_w && x - half_w <= high && low <= y - half_h && y - half_h <= high && x + far
        <= high && y + far <= high && x - w <= high && y - h <= high && low <= x - w - far && low
        <= y - h - far
}

/// Whether a label can be placed within the coordinate range.
pub fn is_placeable(intent: &LabelIntent) -> (r: bool)
    requires
        intent.anchor.measurable(),
        intent.preferred.measurable(),
    ensures
        r == placeable(*intent),
{
    match intent.kind {
        CandidateKind::Box => true,
        CandidateKind::Point => {
            let (x, y) = intent.anchor.center();
            point_label_fits(x, y, intent.preferred.width(), intent.preferred.height())
        },
    }
}

/// The candidates for a label of a point stand around it, four pixels away and then twelve:
/// above, below, right, left, and then in the corners above right, above left, below right
/// and below left. Those on an axis are centered on the point. All have the label's size.
pub proof fn law_point_candidates_stand_around_the_point(x: int, y: int, w: int, h: int, k: int)
    requires
        i32::MIN <= x - w - 12,
        x + w + 12 <= i32::MAX,
        i32::MIN <= y - h - 12,
        y + h + 12 <= i32::MAX,
        0 <= w,
        0 <= h,
        0 <= k < 16,
    ensures
        ({
            let c = point_candidates(x, y, w, h)[k];
            let away: int = if k < 8 {
                4
            } else {
                12
            };
            let side = k % 8;
            &&& c.right - c.left == w
            &&& c.bottom - c.top == h
            &&& side == 0 || side == 4 || side == 5 ==> c.bottom == y - away
            &&& side == 1 || side == 6 || side == 7 ==> c.top == y + away
            &&& side == 2 || side == 4 || side == 6 ==> c.left == x + away
            &&& side == 3 || side == 5 || side == 7 ==> c.right == x - away
            &&& side == 0 || side == 1 ==> 0 <= c.left + c.right - 2 * x <= 1
            &&& side == 2 || side == 3 ==> 0 <= c.top + c.bottom - 2 * y <= 1
        }),
{
    let near = point_ring(x, y, w, h, CANDIDATE_GAP as int);
    let far = point_ring(x, y, w, h, CANDIDATE_EXT as int);
    if k < 8 {
        assert(point_candidates(x, y, w, h)[k] == near[k]);
    } else {
        assert(point_candidates(x, y, w, h)[k] == far[k - 8]);
    }
}

/// The candidates for a label of a box stand around it, two pixels away and then fourteen:
/// above, below, right and left. Those above and below start where the box does, those at
/// the sides at its top. The one above does not leave the frame at the top. All are one line
/// high and as wide as the label.
pub proof fn law_box_candidates_stand_around_the_box(bbox: Rect, w: int, k: int)
    requires
        bbox.left <= bbox.right,
        bbox.top <= bbox.bottom,
        i32::MIN <= bbox.left - w - 14,
        bbox.right + w + 14 <= i32::MAX,
        i32::MIN <= bbox.top - 26,
        bbox.bottom + 26 <= i32::MAX,
        bbox.measurable(),
        0 <= w,
        0 <= k < 8,
    ensures
        box_candidates(bbox, w).len() == 8,
        ({
            let c = box_candidates(bbox, w)[k];
            let away: int = if k < 4 {
                2
            } else {
                14
            };
            &&& c.right - c.left == w
            &&& c.bottom - c.top == 12
            &&& k % 4 == 0 ==> c.left == bbox.left && c.bottom == if bbox.top - away < 12 {
                12
            } else {
                bbox.top - away
            }
            &&& k % 4 == 1 ==> c.left == bbox.left && c.top == bbox.bottom + away
            &&& k % 4 == 2 ==> c.left == bbox.right + away && c.top == bbox.top
            &&& k % 4 == 3 ==> c.right == bbox.left - away && c.top == bbox.top
        }),
{
    let near = box_ring(bbox, w, LABEL_LAYOUT_GAP as int);
    let far = box_ring(bbox, w, LABEL_LAYOUT_GAP + BOX_CANDIDATE_EXT);
    if k < 4 {
        assert(box_candidates(bbox, w)[k] == near[k]);
    } else {
        assert(box_candidates(bbox, w)[k] == far[k - 4]);
    }
}

/// The labels are placed each once, one of a higher priority before one of a lower, and of
/// the same priority in the order in which they came.
pub proof fn law_labels_are_placed_by_priority(
    order: Seq<usize>,
    intents: Seq<LabelIntent>,
    i: int,
    j: int,
)
    requires
        is_order(order, intents),
        0 <= i < j < intents.len(),
    ensures
        order.len() == intents.len(),
        order[i] < intents.len(),
        order[j] < intents.len(),
        order[i] != order[j],
        intents[order[i] as int].priority >= intents[order[j] as int].priority,
        intents[order[i] as int].priority == intents[order[j] as int].priority ==> order[i]
            < order[j],
{
    crate::ranking::law_higher_keys_come_first(order, priorities(intents), i, j);
}

/// A placed label is drawn with its own text and colour: that of a box from the left edge of
/// its place and standing on the bottom edge, that of a point around the middle. A displaced
/// label gets a line of its colour before that, from the point of its feature that is nearest
/// to the label's middle to the point of the label that is nearest to the feature's middle.
/// What was drawn before stays. A label without a place draws nothing.
pub proof fn law_labels_are_drawn_in_their_place(
    before: Drawn,
    intent: LabelIntent,
    placement: LabelPlacement,
)
    requires
        intent.anchor.left <= intent.anchor.right,
        intent.anchor.top <= intent.anchor.bottom,
        placement.rect.left <= placement.rect.right,
        placement.rect.top <= placement.rect.bottom,
    ensures
        before.with_label(intent, None) == before,
        ({
            let rect = placement.rect;
            let anchor = intent.anchor;
            let after = before.with_label(intent, Some(placement));
            let n = before.commands.len() as int;
            let m = if placement.displaced {
                n + 1
            } else {
                n
            };
            &&& after.placed == before.placed.push(rect)
            &&& after.commands.len() == m + 1
            &&& forall|i: int| 0 <= i < n ==> #[trigger] after.commands[i] == before.commands[i]
            &&& intent.kind == CandidateKind::Box ==> after.commands[m] == (DrawCommand::Text {
                x: Scalar::of_int(rect.left as int),
                y: Scalar::of_int(rect.bottom as int),
                text: intent.text,
                argb: intent.color,
            })
            &&& intent.kind == CandidateKind::Point ==> (after.commands[m] matches
                DrawCommand::TextCentered { x, y, text, argb } && text == intent.text && argb
                == intent.color && exists|cx: int, cy: int|
                #![trigger Scalar::of_int(cx), Scalar::of_int(cy)]
                x == Scalar::of_int(cx) && y == Scalar::of_int(cy) && 0 <= rect.left + rect.right
                    - 2 * cx <= 1 && 0 <= rect.top + rect.bottom - 2 * cy <= 1)
            &&& placement.displaced ==> (after.commands[n] matches DrawCommand::Line {
                x0,
                y0,
                x1,
                y1,
                argb,
                width,
            } && argb == intent.color && width == Scalar::of_int(1) && exists|
                fx: int,
                fy: int,
                tx: int,
                ty: int,
            |
                #![trigger Scalar::of_int(fx), Scalar::of_int(fy), Scalar::of_int(tx), Scalar::of_int(ty)]
                {
                    &&& x0 == Scalar::of_int(fx)
                    &&& y0 == Scalar::of_int(fy)
                    &&& x1 == Scalar::of_int(tx)
                    &&& y1 == Scalar::of_int(ty)
                    &&& is_nearest(fx, anchor.left as int, anchor.right as int, rect.middle().0)
                    &&& is_nearest(fy, anchor.top as int, anchor.bottom as int, rect.middle().1)
                    &&& is_nearest(tx, rect.left as int, rect.right as int, anchor.middle().0)
                    &&& is_nearest(ty, rect.top as int, rect.bottom as int, anchor.middle().1)
                })
        }),
{
    let rect = placement.rect;
    let anchor = intent.anchor;
    let (fx, fy) = anchor.nearest(rect.middle().0, rect.middle().1);
    let (tx, ty) = rect.nearest(anchor.middle().0, anchor.middle().1);
    crate::geometry::law_center_lies_half_way(rect);
    assert(is_nearest(fx, anchor.left as int, anchor.right as int, rect.middle().0));
    assert(is_nearest(fy, anchor.top as int, anchor.bottom as int, rect.middle().1));
    assert(is_nearest(tx, rect.left as int, rect.right as int, anchor.middle().0));
    assert(is_nearest(ty, rect.top as int, rect.bottom as int, anchor.middle().1));
    let after = before.with_label(intent, Some(placement));
    let n = before.commands.len() as int;
    if placement.displaced {
        assert(after.commands[n] == leader_command((fx, fy), (tx, ty), intent.color));
    }
}

/// `p` lies in `low..=high`, and nothing there is nearer to `v`.
pub open spec fn is_nearest(p: int, low: int, high: int, v: int) -> bool {
    &&& low <= p <= high
    &&& v < low ==> p == low
    &&& v > high ==> p == high
    &&& low <= v <= high ==> p == v
}

/// A position misses a rectangle exactly where no pixel of the frame lies in both.
pub proof fn law_missing_means_no_common_pixel(frame: Rect, position: Rect, rect: Rect)
    ensures
        misses(frame, position, rect) == forall|x: int, y: int|
            #![trigger rect.covers(x, y)]
            frame.left <= x < frame.right && frame.top <= y < frame.bottom && position.left <= x
                < position.right && position.top <= y < position.bottom ==> !rect.covers(x, y),
{
    if !misses(frame, position, rect) {
        let seen = position.common(frame)->0;
        let other = rect.common(frame)->0;
        let x = crate::geometry::int_max(seen.left as int, other.left as int);
        let y = crate::geometry::int_max(seen.top as int, other.top as int);
        assert(rect.covers(x, y));
    } else {
        assert forall|x: int, y: int|
            #![trigger rect.covers(x, y)]
            frame.covers(x, y) && position.covers(x, y) implies !rect.covers(x, y) by {
            if rect.covers(x, y) {
                assert(position.common(frame)->0.covers(x, y));
                assert(rect.common(frame)->0.covers(x, y));
            }
        }
    }
}

/// An unobstructed position has a pixel in the frame, and none of those lies in a label that
/// was placed before, or in hard content that was claimed at the label's priority or higher,
/// by any owner. Soft content and content of a lower priority obstruct nothing.
pub proof fn law_obstacles_cover_a_pixel(
    width: int,
    height: int,
    claims: Seq<crate::coordination::Claim>,
    placed: Seq<Rect>,
    priority: i32,
    position: Rect,
)
    requires
        0 <= width <= i32::MAX,
        0 <= height <= i32::MAX,
    ensures
        unobstructed(width, height, claims, placed, priority, position) == ({
            &&& position.left < position.right
            &&& position.top < position.bottom
            &&& position.left < width
            &&& 0 < position.right
            &&& position.top < height
            &&& 0 < position.bottom
            &&& 0 < width
            &&& 0 < height
            &&& forall|i: int, x: int, y: int|
                #![trigger placed[i].covers(x, y)]
                0 <= i < placed.len() && 0 <= x < width && 0 <= y < height && position.left <= x
                    < position.right && position.top <= y < position.bottom
                    ==> !placed[i].covers(x, y)
            &&& forall|k: int, x: int, y: int|
                #![trigger claims[k].rect.covers(x, y)]
                0 <= k < claims.len() && claims[k].kind
                    == crate::coordination::ClaimKind::Occlude && claims[k].priority >= priority
                    && 0 <= x < width && 0 <= y < height && position.left <= x < position.right
                    && position.top <= y < position.bottom ==> !claims[k].rect.covers(x, y)
        }),
{
    let frame = Rect::of(0, 0, width, height);
    assert forall|i: int| 0 <= i < placed.len() implies misses(
        frame,
        position,
        #[trigger] placed[i],
    ) == forall|x: int, y: int|
        #![trigger placed[i].covers(x, y)]
        0 <= x < width && 0 <= y < height && position.left <= x < position.right && position.top
            <= y < position.bottom ==> !placed[i].covers(x, y) by {
        law_missing_means_no_common_pixel(frame, position, placed[i]);
    }
    assert forall|k: int| 0 <= k < claims.len() implies misses(
        frame,
        position,
        (#[trigger] claims[k]).rect,
    ) == forall|x: int, y: int|
        #![trigger claims[k].rect.covers(x, y)]
        0 <= x < width && 0 <= y < height && position.left <= x < position.right && position.top
            <= y < position.bottom ==> !claims[k].rect.covers(x, y) by {
        law_missing_means_no_common_pixel(frame, position, claims[k].rect);
    }
}

/// Where no position is clear, a label that is placed covers no more hard area than any other
/// candidate in the frame would, and less than any such candidate that comes before.
pub proof fn law_crowded_labels_cover_the_least(
    o: crate::geometry::Occupancy,
    default: Rect,
    candidates: Seq<Rect>,
    c: int,
)
    requires
        !clear(o, default),
        forall|j: int| 0 <= j < candidates.len() ==> !clear(o, #[trigger] candidates[j]),
        0 <= c < candidates.len(),
        candidates[c].common(o.frame) is Some,
    ensures
        placement_of(o, default, candidates) matches Some(placement) && {
            &&& placement.displaced
            &&& candidates.contains(placement.rect)
            &&& o.hard_area(crate::geometry::RegionPriority::Label, placement.rect)->0
                <= o.hard_area(crate::geometry::RegionPriority::Label, candidates[c])->0
            &&& placement.rect != candidates[c] ==> (o.hard_area(
                crate::geometry::RegionPriority::Label,
                placement.rect,
            )->0 < o.hard_area(crate::geometry::RegionPriority::Label, candidates[c])->0 || exists|
                j: int,
            |
                0 <= j < c && #[trigger] candidates[j] == placement.rect)
        },
{
    let positions = positions_of(default, candidates);
    assert forall|j: int| 0 <= j < positions.len() implies !clear(o, #[trigger] positions[j]) by {
        if j > 0 {
            assert(positions[j] == candidates[j - 1]);
        }
    }
    law_least_covered_candidate_is_taken(o, default, candidates, c, default);
    let k = choose|k: int|
        #[trigger] least_covered(o, candidates, k) && placement_of(o, default, candidates) == Some(
            LabelPlacement { rect: candidates[k], displaced: true },
        );
    assert(o.clip(candidates[c]) is Some);
    if k <= c {
        assert(candidates[k] == placement_of(o, default, candidates)->0.rect);
    }
}

/// Hard claims and labels leave no soft region.
proof fn lemma_nothing_soft_around(
    o: crate::geometry::Occupancy,
    claims: Seq<crate::coordination::Claim>,
    placed: Seq<Rect>,
    priority: i32,
)
    requires
        o.regions.len() == 0,
        forall|k: int|
            0 <= k < claims.len() ==> (#[trigger] claims[k]).kind
                != crate::coordination::ClaimKind::Avoid,
    ensures
        forall|i: int|
            0 <= i < highlighted(
                crate::coordination::seeded(o, claims, None, priority),
                placed,
            ).regions.len() ==> (#[trigger] highlighted(
                crate::coordination::seeded(o, claims, None, priority),
                placed,
            ).regions[i]).priority != crate::geometry::RegionPriority::Avoid,
    decreases claims.len(), placed.len(),
{
    if placed.len() > 0 {
        lemma_nothing_soft_around(o, claims, placed.drop_last(), priority);
    } else if claims.len() > 0 {
        let rest = claims.drop_last();
        assert(forall|k: int| 0 <= k < rest.len() ==> rest[k] == claims[k]);
        lemma_nothing_soft_around(o, rest, placed, priority);
        assert(claims.last() == claims[claims.len() - 1]);
        assert(highlighted(crate::coordination::seeded(o, rest, None, priority), placed)
            == crate::coordination::seeded(o, rest, None, priority));
        assert(highlighted(crate::coordination::seeded(o, claims, None, priority), placed)
            == crate::coordination::seeded(o, claims, None, priority));
    }
}

/// Among hard content alone a label whose preferred place nothing obstructs keeps it.
pub proof fn law_unobstructed_labels_stay(
    width: int,
    height: int,
    claims: Seq<crate::coordination::Claim>,
    placed: Seq<Rect>,
    intent: LabelIntent,
)
    requires
        unobstructed(width, height, claims, placed, intent.priority, intent.preferred),
        forall|k: int|
            0 <= k < claims.len() ==> (#[trigger] claims[k]).kind
                != crate::coordination::ClaimKind::Avoid,
    ensures
        next_placement(width, height, claims, placed, intent) == Some(
            LabelPlacement { rect: intent.preferred, displaced: false },
        ),
{
    let o = surroundings(width, height, claims, placed, intent.priority);
    let candidates = candidates_of(intent.kind, intent.anchor, intent.preferred);
    let fresh = crate::geometry::Occupancy::fresh(width, height);
    lemma_nothing_soft_around(fresh, claims, placed, intent.priority);
    law_clear_means_unobstructed(
        width,
        height,
        claims,
        placed,
        intent.priority,
        intent.preferred,
    );
    assert(positions_of(intent.preferred, candidates)[0] == intent.preferred);
    law_first_clear_position_is_taken(o, intent.preferred, candidates, 0);
}

} // verus!
