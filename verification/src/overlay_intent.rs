//! Deferred overlay-label intents.
//!
//! Labels are the only movable overlay content, so to relocate them globally by priority
//! an upstream element can defer them: instead of placing and rendering a label itself, it
//! emits a [`LabelIntent`]. A downstream compositor reads every element's intents, places
//! them all against each other and the anchored content that was claimed, and renders
//! them once.

use vstd::prelude::*;

use crate::coordination::{read_int, read_string};
use crate::geometry::Rect;

verus! {

/// Number of `i32` values packed per label in the metadata's `coords` array, in
/// order: anchor x, y, w, h, preferred x, y, w, h, color, kind, priority.
pub const COORDS_PER_LABEL: usize = 11;

/// How a compositor regenerates fallback candidate positions for a deferred
/// label, mirroring how the producing element would have placed it.
#[derive(Debug, Clone, Copy, PartialEq, Eq, Structural)]
pub enum CandidateKind {
    /// Anchored to a bounding box.
    Box,
    /// Anchored to a point feature such as a keypoint.
    Point,
}

impl CandidateKind {
    /// The number that stands for the kind in the metadata.
    pub open spec fn code(self) -> i32 {
        match self {
            CandidateKind::Box => 0,
            CandidateKind::Point => 1,
        }
    }

    /// The kind that a number in the metadata stands for.
    pub open spec fn of_code(value: i32) -> CandidateKind {
        if value == 1 {
            CandidateKind::Point
        } else {
            CandidateKind::Box
        }
    }

    pub fn as_i32(self) -> (r: i32)
        ensures
            r == self.code(),
    {
        match self {
            CandidateKind::Box => 0,
            CandidateKind::Point => 1,
        }
    }

    pub fn from_i32(value: i32) -> (r: Self)
        ensures
            r == CandidateKind::of_code(value),
    {
        if value == 1 {
            CandidateKind::Point
        } else {
            CandidateKind::Box
        }
    }
}

/// A label an element deferred for a downstream compositor to place and render.
#[derive(Debug, PartialEq, Eq)]
pub struct LabelIntent {
    /// Text to draw.
    pub text: String,
    /// Text colour (ARGB).
    pub color: u32,
    /// The labelled feature's rect (a zero-sized rect for a point feature).
    /// Used to regenerate fallback candidates and to draw a leader line when the
    /// label ends up displaced.
    pub anchor: Rect,
    /// The element's preferred (default) label rect; also gives the label size.
    pub preferred: Rect,
    /// Which candidate generator to use when the preferred rect is taken.
    pub kind: CandidateKind,
    /// Importance, for global ordering and avoidance.
    pub priority: i32,
    /// Identifier of the producing element, for debugging.
    pub owner: String,
}

/// A label intent with its texts by their characters.
#[verifier::ext_equal]
pub struct Intent {
    pub text: Seq<char>,
    pub color: u32,
    pub anchor: Rect,
    pub preferred: Rect,
    pub kind: CandidateKind,
    pub priority: i32,
    pub owner: Seq<char>,
}

impl View for LabelIntent {
    type V = Intent;

    open spec fn view(&self) -> Intent {
        Intent {
            text: self.text@,
            color: self.color,
            anchor: self.anchor,
            preferred: self.preferred,
            kind: self.kind,
            priority: self.priority,
            owner: self.owner@,
        }
    }
}

/// The intents of a list of labels.
pub open spec fn intents(labels: Seq<LabelIntent>) -> Seq<Intent> {
    labels.map_values(|label: LabelIntent| label@)
}

impl Clone for LabelIntent {
    fn clone(&self) -> (r: Self)
        ensures
            r == *self,
    {
        LabelIntent {
            text: self.text.clone(),
            color: self.color,
            anchor: self.anchor,
            preferred: self.preferred,
            kind: self.kind,
            priority: self.priority,
            owner: self.owner.clone(),
        }
    }
}

/// The label metadata of a buffer, as its parallel arrays: `coords`
/// ([`COORDS_PER_LABEL`] integers per label), `texts` and `owners` (one string per label
/// each). An array that is not there is `None`, and so is an element that holds another
/// type.
#[derive(Debug)]
pub struct LabelMeta {
    pub coords: Option<Vec<Option<i32>>>,
    pub texts: Option<Vec<Option<String>>>,
    pub owners: Option<Vec<Option<String>>>,
}

/// A colour as the `i32` with the same bits.
pub open spec fn color_code(color: u32) -> i32 {
    if color < 0x8000_0000 {
        color as i32
    } else {
        (color - 0x1_0000_0000) as i32
    }
}

/// The colour with the bits of an `i32`.
pub open spec fn color_of(code: i32) -> u32 {
    if code >= 0 {
        code as u32
    } else {
        (code + 0x1_0000_0000) as u32
    }
}

/// A colour as the `i32` with the same bits.
pub fn color_to_i32(color: u32) -> (r: i32)
    ensures
        r == color_code(color),
{
    if color < 0x8000_0000 {
        color as i32
    } else {
        (color as i64 - 0x1_0000_0000) as i32
    }
}

/// The colour with the bits of an `i32`.
pub fn color_from_i32(code: i32) -> (r: u32)
    ensures
        r == color_of(code),
{
    if code >= 0 {
        code as u32
    } else {
        (code as i64 + 0x1_0000_0000) as u32
    }
}

impl Intent {
    /// The integers that stand for a label.
    pub open spec fn field(self, i: int) -> i32 {
        if i == 0 {
            self.anchor.left
        } else if i == 1 {
            self.anchor.top
        } else if i == 2 {
            crate::geometry::saturated(self.anchor.right - self.anchor.left)
        } else if i == 3 {
            crate::geometry::saturated(self.anchor.bottom - self.anchor.top)
        } else if i == 4 {
            self.preferred.left
        } else if i == 5 {
            self.preferred.top
        } else if i == 6 {
            crate::geometry::saturated(self.preferred.right - self.preferred.left)
        } else if i == 7 {
            crate::geometry::saturated(self.preferred.bottom - self.preferred.top)
        } else if i == 8 {
            color_code(self.color)
        } else if i == 9 {
            self.kind.code()
        } else {
            self.priority
        }
    }
}

impl LabelMeta {
    /// The labels that the arrays describe; integers left over at the end are ignored.
    pub open spec fn decoded(self) -> Seq<Intent> {
        match self.coords {
            Some(coords) => Seq::new(
                (coords@.len() / 11) as nat,
                |k: int|
                    Intent {
                        text: crate::coordination::string_at(self.texts, k),
                        color: color_of(crate::coordination::int_at(coords@, 11 * k + 8)),
                        anchor: Rect::of(
                            crate::coordination::int_at(coords@, 11 * k) as int,
                            crate::coordination::int_at(coords@, 11 * k + 1) as int,
                            crate::coordination::int_at(coords@, 11 * k + 2) as int,
                            crate::coordination::int_at(coords@, 11 * k + 3) as int,
                        ),
                        preferred: Rect::of(
                            crate::coordination::int_at(coords@, 11 * k + 4) as int,
                            crate::coordination::int_at(coords@, 11 * k + 5) as int,
                            crate::coordination::int_at(coords@, 11 * k + 6) as int,
                            crate::coordination::int_at(coords@, 11 * k + 7) as int,
                        ),
                        kind: CandidateKind::of_code(
                            crate::coordination::int_at(coords@, 11 * k + 9),
                        ),
                        priority: crate::coordination::int_at(coords@, 11 * k + 10),
                        owner: crate::coordination::string_at(self.owners, k),
                    },
            ),
            None => Seq::empty(),
        }
    }

    /// The arrays hold the labels of a list, eleven integers and two strings for each.
    pub open spec fn encodes(self, list: Seq<Intent>) -> bool {
        &&& self.coords matches Some(coords) && coords@ == Seq::new(
            11 * list.len(),
            |j: int| Some(list[j / 11].field(j % 11)),
        )
        &&& self.texts matches Some(texts) && texts@.len() == list.len() && forall|k: int|
            0 <= k < list.len() ==> (#[trigger] texts@[k] matches Some(text) && text@
                == list[k].text)
        &&& self.owners matches Some(owners) && owners@.len() == list.len() && forall|k: int|
            0 <= k < list.len() ==> (#[trigger] owners@[k] matches Some(owner) && owner@
                == list[k].owner)
    }
}

/// The labels that are on a buffer; none where it carries no label metadata.
pub open spec fn intents_on(meta: Option<LabelMeta>) -> Seq<Intent> {
    match meta {
        Some(meta) => meta.decoded(),
        None => Seq::empty(),
    }
}

/// The metadata arrays for a list of labels.
pub fn encode(labels: &[LabelIntent]) -> (r: LabelMeta)
    ensures
        r.encodes(intents(labels@)),
{
    let mut coords: Vec<Option<i32>> = Vec::new();
    let mut texts: Vec<Option<String>> = Vec::new();
    let mut owners: Vec<Option<String>> = Vec::new();
    let ghost list = intents(labels@);
    let mut i: usize = 0;
    while i < labels.len()
        invariant
            i <= labels.len(),
            list == intents(labels@),
            coords@ =~= Seq::new((11 * i) as nat, |j: int| Some(list[j / 11].field(j % 11))),
            texts@.len() == i,
            owners@.len() == i,
            forall|k: int|
                0 <= k < i ==> (#[trigger] texts@[k] matches Some(text) && text@ == list[k].text),
            forall|k: int|
                0 <= k < i ==> (#[trigger] owners@[k] matches Some(owner) && owner@
                    == list[k].owner),
        decreases labels.len() - i,
    {
        let label = &labels[i];
        assert(list[i as int] == label@);
        coords.push(Some(label.anchor.left));
        coords.push(Some(label.anchor.top));
        coords.push(Some(label.anchor.width()));
        coords.push(Some(label.anchor.height()));
        coords.push(Some(label.preferred.left));
        coords.push(Some(label.preferred.top));
        coords.push(Some(label.preferred.width()));
        coords.push(Some(label.preferred.height()));
        coords.push(Some(color_to_i32(label.color)));
        coords.push(Some(label.kind.as_i32()));
        coords.push(Some(label.priority));
        texts.push(Some(label.text.clone()));
        owners.push(Some(label.owner.clone()));
        i = i + 1;
    }
    LabelMeta { coords: Some(coords), texts: Some(texts), owners: Some(owners) }
}

/// The labels that the metadata arrays describe.
pub fn decode(meta: &LabelMeta) -> (r: Vec<LabelIntent>)
    ensures
        intents(r@) == meta.decoded(),
        forall|k: int|
            0 <= k < r@.len() ==> (#[trigger] r@[k]).anchor.measurable()
                && r@[k].preferred.measurable(),
{
    let mut labels: Vec<LabelIntent> = Vec::new();
    match &meta.coords {
        Some(coords) => {
            let count: usize = coords.len() / COORDS_PER_LABEL;
            let mut k: usize = 0;
            while k < count
                invariant
                    k <= count,
                    count == coords.len() / 11,
                    coords.len() == coords@.len(),
                    meta.coords == Some(*coords),
                    intents(labels@) =~= meta.decoded().take(k as int),
                    forall|j: int|
                        0 <= j < labels@.len() ==> (#[trigger] labels@[j]).anchor.measurable()
                            && labels@[j].preferred.measurable(),
                decreases count - k,
            {
                let at: usize = COORDS_PER_LABEL * k;
                let label = LabelIntent {
                    text: read_string(&meta.texts, k),
                    color: color_from_i32(read_int(coords, at + 8)),
                    anchor: Rect::from_xywh(
                        read_int(coords, at),
                        read_int(coords, at + 1),
                        read_int(coords, at + 2),
                        read_int(coords, at + 3),
                    ),
                    preferred: Rect::from_xywh(
                        read_int(coords, at + 4),
                        read_int(coords, at + 5),
                        read_int(coords, at + 6),
                        read_int(coords, at + 7),
                    ),
                    kind: CandidateKind::from_i32(read_int(coords, at + 9)),
                    priority: read_int(coords, at + 10),
                    owner: read_string(&meta.owners, k),
                };
                assert(label@ == meta.decoded()[k as int]);
                let ghost before = labels@;
                labels.push(label);
                assert(intents(labels@) =~= intents(before).push(label@));
                k = k + 1;
            }
            assert(meta.decoded().take(k as int) =~= meta.decoded());
        },
        None => {
            assert(intents(labels@) =~= meta.decoded());
        },
    }
    labels
}

/// Read every deferred label intent that a buffer carries.
pub fn label_intents(meta: &Option<LabelMeta>) -> (r: Vec<LabelIntent>)
    ensures
        intents(r@) == intents_on(*meta),
        forall|k: int|
            0 <= k < r@.len() ==> (#[trigger] r@[k]).anchor.measurable()
                && r@[k].preferred.measurable(),
{
    match meta {
        Some(meta) => decode(meta),
        None => {
            let none: Vec<LabelIntent> = Vec::new();
            assert(intents(none@) =~= Seq::<Intent>::empty());
            none
        },
    }
}

/// The rectangles of every label have extents that fit in an `i32`.
pub open spec fn all_measurable(labels: Seq<LabelIntent>) -> bool {
    forall|k: int|
        0 <= k < labels.len() ==> (#[trigger] labels[k]).anchor.measurable()
            && labels[k].preferred.measurable()
}

/// Append deferred label intents to those a buffer carries (so a chain of deferring
/// elements all reach the compositor).
pub fn add_label_intents(meta: &mut Option<LabelMeta>, labels: &[LabelIntent])
    ensures
        labels@.len() == 0 ==> *final(meta) == *old(meta),
        labels@.len() > 0 ==> (*final(meta) matches Some(written) && written.encodes(
            intents_on(*old(meta)) + intents(labels@),
        )),
        all_measurable(labels@) ==> intents_on(*final(meta)) == intents_on(*old(meta)) + intents(
            labels@,
        ),
{
    if labels.len() == 0 {
        assert(intents_on(*meta) + intents(labels@) =~= intents_on(*meta));
        return;
    }
    let mut all: Vec<LabelIntent> = label_intents(meta);
    let ghost before = all@;
    let mut i: usize = 0;
    while i < labels.len()
        invariant
            i <= labels.len(),
            all@ =~= before + labels@.take(i as int),
        decreases labels.len() - i,
    {
        all.push(labels[i].clone());
        i = i + 1;
    }
    assert(all@ =~= before + labels@);
    assert(intents(all@) =~= intents_on(*meta) + intents(labels@));
    let written = encode(all.as_slice());
    proof {
        if all_measurable(labels@) {
            assert forall|k: int| 0 <= k < all@.len() implies (
            #[trigger] intents(all@)[k]).anchor.measurable() && intents(
                all@,
            )[k].preferred.measurable() by {
                if k < before.len() {
                    assert(all@[k] == before[k]);
                } else {
                    assert(all@[k] == labels@[k - before.len()]);
                }
            }
            law_labels_round_trip(written, intents(all@));
        }
    }
    *meta = Some(written);
}

/// What was written is read back: text, colour, kind, priority and owner of every label,
/// and its rectangles where the distances between opposite edges fit in an `i32`.
pub proof fn law_labels_round_trip(meta: LabelMeta, list: Seq<Intent>)
    requires
        meta.encodes(list),
        forall|k: int|
            0 <= k < list.len() ==> (#[trigger] list[k]).anchor.measurable()
                && list[k].preferred.measurable(),
    ensures
        meta.decoded() == list,
{
    assert(meta.decoded().len() == list.len());
    assert forall|k: int| 0 <= k < list.len() implies #[trigger] meta.decoded()[k] == list[k] by {
        assert(list[k].anchor.measurable());
        lemma_label_round_trip(meta, list, k);
    }
    assert(meta.decoded() =~= list);
}

/// The labels of a list in another coordinate space: those whose anchor has an image
/// there, in order. A preferred rectangle without an image falls back to the anchor's.
/// `anchors` and `preferred` hold what a matrix makes of the rectangles.
pub open spec fn intents_mapped(
    list: Seq<Intent>,
    map: crate::meta_transform::RectMap,
    anchors: Seq<Option<Rect>>,
    preferred: Seq<Option<Rect>>,
) -> Seq<Intent>
    decreases list.len(),
{
    if list.len() == 0 {
        Seq::empty()
    } else {
        let n = list.len() - 1;
        let before = intents_mapped(list.drop_last(), map, anchors, preferred);
        match map.image(list[n].anchor, anchors[n]) {
            Some(anchor) => before.push(
                Intent {
                    anchor,
                    preferred: match map.image(list[n].preferred, preferred[n]) {
                        Some(rect) => rect,
                        None => anchor,
                    },
                    ..list[n]
                },
            ),
            None => before,
        }
    }
}

/// The label metadata in another coordinate space. A label whose anchor fell out of the
/// frame is dropped; if only its preferred rect did, it falls back to the anchor (the
/// compositor re-places labels from the anchor anyway). `anchors` and `preferred` hold
/// what the matrix of an affine map makes of each label's rectangles.
pub fn transform_labels(
    meta: &LabelMeta,
    map: crate::meta_transform::RectMap,
    anchors: &[Option<Rect>],
    preferred: &[Option<Rect>],
) -> (r: LabelMeta)
    requires
        anchors@.len() >= meta.decoded().len(),
        preferred@.len() >= meta.decoded().len(),
    ensures
        r.encodes(intents_mapped(meta.decoded(), map, anchors@, preferred@)),
{
    let labels = decode(meta);
    let ghost list = meta.decoded();
    let mut mapped: Vec<LabelIntent> = Vec::new();
    let mut i: usize = 0;
    assert(intents(labels@).len() == labels@.len());
    assert(list.take(0) =~= Seq::<Intent>::empty());
    assert(intents(mapped@) =~= Seq::<Intent>::empty());
    while i < labels.len()
        invariant
            i <= labels.len(),
            list == intents(labels@),
            anchors@.len() >= labels@.len(),
            preferred@.len() >= labels@.len(),
            intents(mapped@) == intents_mapped(list.take(i as int), map, anchors@, preferred@),
        decreases labels.len() - i,
    {
        let label = &labels[i];
        proof {
            let next = list.take(i + 1);
            assert(next.drop_last() =~= list.take(i as int));
            assert(next[i as int] == label@);
        }
        let ghost before = mapped@;
        match map.apply(label.anchor, anchors[i]) {
            Some(anchor) => {
                let moved = LabelIntent {
                    text: label.text.clone(),
                    color: label.color,
                    anchor,
                    preferred: match map.apply(label.preferred, preferred[i]) {
                        Some(rect) => rect,
                        None => anchor,
                    },
                    kind: label.kind,
                    priority: label.priority,
                    owner: label.owner.clone(),
                };
                mapped.push(moved);
                assert(intents(mapped@) =~= intents(before).push(moved@));
            },
            None => {},
        }
        i = i + 1;
    }
    assert(list.take(i as int) =~= list);
    encode(mapped.as_slice())
}

/// A plain copy carries the label intents verbatim.
pub proof fn law_copy_keeps_labels(
    list: Seq<Intent>,
    anchors: Seq<Option<Rect>>,
    preferred: Seq<Option<Rect>>,
)
    ensures
        intents_mapped(list, crate::meta_transform::RectMap::Identity, anchors, preferred) == list,
    decreases list.len(),
{
    if list.len() > 0 {
        law_copy_keeps_labels(list.drop_last(), anchors, preferred);
        assert(list.drop_last().push(list.last()) =~= list);
    }
}

/// A scale keeps every label, and of each its text, colour, kind, priority and owner.
pub proof fn law_scale_keeps_every_label(
    list: Seq<Intent>,
    ratio: crate::meta_transform::ScaleRatio,
    anchors: Seq<Option<Rect>>,
    preferred: Seq<Option<Rect>>,
)
    ensures
        intents_mapped(
            list,
            crate::meta_transform::RectMap::Ratio(ratio),
            anchors,
            preferred,
        ) == Seq::new(
            list.len(),
            |i: int|
                Intent {
                    anchor: ratio.scaled_rect(list[i].anchor),
                    preferred: ratio.scaled_rect(list[i].preferred),
                    ..list[i]
                },
        ),
    decreases list.len(),
{
    let expected = Seq::new(
        list.len(),
        |i: int|
            Intent {
                anchor: ratio.scaled_rect(list[i].anchor),
                preferred: ratio.scaled_rect(list[i].preferred),
                ..list[i]
            },
    );
    if list.len() > 0 {
        law_scale_keeps_every_label(list.drop_last(), ratio, anchors, preferred);
        assert(intents_mapped(
            list,
            crate::meta_transform::RectMap::Ratio(ratio),
            anchors,
            preferred,
        ) =~= expected);
    } else {
        assert(expected =~= Seq::<Intent>::empty());
    }
}

/// Where the integers of a label stand.
proof fn lemma_label_field(coords: Seq<Option<i32>>, list: Seq<Intent>, k: int, i: int)
    requires
        coords == Seq::new(11 * list.len(), |j: int| Some(list[j / 11].field(j % 11))),
        0 <= k < list.len(),
        0 <= i < 11,
    ensures
        coords[11 * k + i] == Some(list[k].field(i)),
        crate::coordination::int_at(coords, 11 * k + i) == list[k].field(i),
{
    assert((11 * k + i) / 11 == k && (11 * k + i) % 11 == i);
}

/// One label is read back as it was written.
#[verifier::spinoff_prover]
proof fn lemma_label_round_trip(meta: LabelMeta, list: Seq<Intent>, k: int)
    requires
        meta.encodes(list),
        0 <= k < list.len(),
        list[k].anchor.measurable(),
        list[k].preferred.measurable(),
    ensures
        meta.decoded()[k] == list[k],
{
    let coords = meta.coords->0@;
    assert(coords.len() == 11 * list.len());
    lemma_label_field(coords, list, k, 0);
    lemma_label_field(coords, list, k, 1);
    lemma_label_field(coords, list, k, 2);
    lemma_label_field(coords, list, k, 3);
    lemma_label_field(coords, list, k, 4);
    lemma_label_field(coords, list, k, 5);
    lemma_label_field(coords, list, k, 6);
    lemma_label_field(coords, list, k, 7);
    lemma_label_field(coords, list, k, 8);
    lemma_label_field(coords, list, k, 9);
    lemma_label_field(coords, list, k, 10);
    let texts = meta.texts->0@;
    let owners = meta.owners->0@;
    assert(texts[k] matches Some(text) && text@ == list[k].text);
    assert(owners[k] matches Some(owner) && owner@ == list[k].owner);
    assert(meta.decoded()[k].text == list[k].text);
    assert(meta.decoded()[k].owner == list[k].owner);
    assert(meta.decoded()[k].anchor == list[k].anchor);
    assert(meta.decoded()[k].preferred == list[k].preferred);
}

/// Eleven integers stand for a label, one label after the other: left, top, width and height
/// of the anchor, the same of the preferred rectangle, the colour, nought for a label of a
/// box and one for that of a point, and the priority. Texts and owners stand in the same
/// order.
pub proof fn law_labels_are_written_in_elevens(meta: LabelMeta, list: Seq<Intent>, k: int)
    requires
        meta.encodes(list),
        0 <= k < list.len(),
        list[k].anchor.measurable(),
        list[k].preferred.measurable(),
    ensures
        meta.coords matches Some(coords) && {
            &&& coords@.len() == 11 * list.len()
            &&& coords@[11 * k] == Some(list[k].anchor.left)
            &&& coords@[11 * k + 1] == Some(list[k].anchor.top)
            &&& coords@[11 * k + 2] matches Some(width) && width == list[k].anchor.right
                - list[k].anchor.left
            &&& coords@[11 * k + 3] matches Some(height) && height == list[k].anchor.bottom
                - list[k].anchor.top
            &&& coords@[11 * k + 4] == Some(list[k].preferred.left)
            &&& coords@[11 * k + 5] == Some(list[k].preferred.top)
            &&& coords@[11 * k + 6] matches Some(width) && width == list[k].preferred.right
                - list[k].preferred.left
            &&& coords@[11 * k + 7] matches Some(height) && height == list[k].preferred.bottom
                - list[k].preferred.top
            &&& coords@[11 * k + 8] matches Some(color) && (color - list[k].color)
                % 0x1_0000_0000 == 0
            &&& coords@[11 * k + 9] == Some(
                if list[k].kind == CandidateKind::Point {
                    1i32
                } else {
                    0i32
                },
            )
            &&& coords@[11 * k + 10] == Some(list[k].priority)
        },
        meta.texts matches Some(texts) && texts@.len() == list.len() && (texts@[k] matches Some(
            text,
        ) && text@ == list[k].text),
        meta.owners matches Some(owners) && owners@.len() == list.len() && (owners@[k] matches Some(
            owner,
        ) && owner@ == list[k].owner),
{
    let coords = meta.coords->0@;
    lemma_label_field(coords, list, k, 0);
    lemma_label_field(coords, list, k, 1);
    lemma_label_field(coords, list, k, 2);
    lemma_label_field(coords, list, k, 3);
    lemma_label_field(coords, list, k, 4);
    lemma_label_field(coords, list, k, 5);
    lemma_label_field(coords, list, k, 6);
    lemma_label_field(coords, list, k, 7);
    lemma_label_field(coords, list, k, 8);
    lemma_label_field(coords, list, k, 9);
    lemma_label_field(coords, list, k, 10);
    let texts = meta.texts->0@;
    let owners = meta.owners->0@;
    assert(texts[k] matches Some(text) && text@ == list[k].text);
    assert(owners[k] matches Some(owner) && owner@ == list[k].owner);
}

/// A matrix keeps just the labels whose anchor it leaves in the frame, in their order;
/// `places` tells which. Each has the new anchor, and the new preferred rectangle or, where
/// that has left the frame, the new anchor in its place; the rest is as before.
pub proof fn law_labels_follow_a_matrix(
    list: Seq<Intent>,
    anchors: Seq<Option<Rect>>,
    preferred: Seq<Option<Rect>>,
) -> (places: Seq<int>)
    ensures
        crate::coordination::walks(places, list.len() as int),
        places.len() == intents_mapped(
            list,
            crate::meta_transform::RectMap::Matrix,
            anchors,
            preferred,
        ).len(),
        forall|k: int|
            0 <= k < list.len() ==> places.contains(k) == (#[trigger] anchors[k] is Some),
        forall|j: int|
            #![trigger places[j]]
            0 <= j < places.len() ==> {
                let label = intents_mapped(
                    list,
                    crate::meta_transform::RectMap::Matrix,
                    anchors,
                    preferred,
                )[j];
                let was = list[places[j]];
                &&& anchors[places[j]] == Some(label.anchor)
                &&& preferred[places[j]] is None ==> label.preferred == label.anchor
                &&& preferred[places[j]] matches Some(rect) ==> label.preferred == rect
                &&& label.text == was.text
                &&& label.color == was.color
                &&& label.kind == was.kind
                &&& label.priority == was.priority
                &&& label.owner == was.owner
            },
    decreases list.len(),
{
    let matrix = crate::meta_transform::RectMap::Matrix;
    if list.len() == 0 {
        Seq::empty()
    } else {
        let rest = list.drop_last();
        let n = rest.len() as int;
        let before = law_labels_follow_a_matrix(rest, anchors, preferred);
        assert(forall|k: int| 0 <= k < n ==> rest[k] == list[k]);
        crate::coordination::lemma_walk_goes_on(before, n);
        let places = if anchors[n] is Some {
            before.push(n)
        } else {
            before
        };
        assert forall|k: int| 0 <= k < list.len() implies places.contains(k) == (
        #[trigger] anchors[k] is Some) by {
            if k < n && places.contains(k) {
                let i = choose|i: int| 0 <= i < places.len() && places[i] == k;
                assert(before[i] == k);
            }
        }
        assert forall|j: int| #![trigger places[j]] 0 <= j < places.len() implies {
            let label = intents_mapped(list, matrix, anchors, preferred)[j];
            let was = list[places[j]];
            &&& anchors[places[j]] == Some(label.anchor)
            &&& preferred[places[j]] is None ==> label.preferred == label.anchor
            &&& preferred[places[j]] matches Some(rect) ==> label.preferred == rect
            &&& label.text == was.text
            &&& label.color == was.color
            &&& label.kind == was.kind
            &&& label.priority == was.priority
            &&& label.owner == was.owner
        } by {
            if j < before.len() {
                assert(places[j] == before[j]);
                assert(rest[before[j]] == list[before[j]]);
            }
        }
        places
    }
}

/// A label is read from its eleven integers, of which one that is missing counts as nought.
/// Any kind but one is a label of a box.
pub proof fn law_labels_are_read_from_elevens(meta: LabelMeta, k: int)
    requires
        meta.coords is Some,
        0 <= k,
        11 * k + 11 <= meta.coords->0@.len(),
    ensures
        ({
            let coords = meta.coords->0@;
            let label = meta.decoded()[k];
            &&& meta.decoded().len() == coords.len() / 11
            &&& label.anchor.left == coords[11 * k].unwrap_or(0)
            &&& label.anchor.top == coords[11 * k + 1].unwrap_or(0)
            &&& label.anchor.right == crate::geometry::saturated(
                label.anchor.left + coords[11 * k + 2].unwrap_or(0),
            )
            &&& label.anchor.bottom == crate::geometry::saturated(
                label.anchor.top + coords[11 * k + 3].unwrap_or(0),
            )
            &&& label.preferred.left == coords[11 * k + 4].unwrap_or(0)
            &&& label.preferred.top == coords[11 * k + 5].unwrap_or(0)
            &&& label.preferred.right == crate::geometry::saturated(
                label.preferred.left + coords[11 * k + 6].unwrap_or(0),
            )
            &&& label.preferred.bottom == crate::geometry::saturated(
                label.preferred.top + coords[11 * k + 7].unwrap_or(0),
            )
            &&& (label.color - coords[11 * k + 8].unwrap_or(0)) % 0x1_0000_0000 == 0
            &&& (label.kind == CandidateKind::Point) == (coords[11 * k + 9] == Some(1i32))
            &&& label.priority == coords[11 * k + 10].unwrap_or(0)
        }),
{
}

} // verus!
