//! Integer rectangles and the registry of frame regions that are already taken.

use vstd::prelude::*;

verus! {

/// The `i32` nearest to `v`.
pub open spec fn saturated(v: int) -> i32 {
    if v < i32::MIN {
        i32::MIN
    } else if v > i32::MAX {
        i32::MAX
    } else {
        v as i32
    }
}

/// Half of `v`, rounded toward zero.
pub open spec fn half(v: int) -> int {
    if v >= 0 {
        v / 2
    } else {
        -((-v) / 2)
    }
}

pub open spec fn int_max(a: int, b: int) -> int {
    if a < b {
        b
    } else {
        a
    }
}

pub open spec fn int_min(a: int, b: int) -> int {
    if a < b {
        a
    } else {
        b
    }
}

/// `a + b`, clamped to the range of `i32`.
pub fn saturating_sum(a: i32, b: i32) -> (r: i32)
    ensures
        r == saturated(a + b),
{
    let sum: i64 = a as i64 + b as i64;
    if sum < i32::MIN as i64 {
        i32::MIN
    } else if sum > i32::MAX as i64 {
        i32::MAX
    } else {
        sum as i32
    }
}

/// `a - b`, clamped to the range of `i32`.
pub fn saturating_difference(a: i32, b: i32) -> (r: i32)
    ensures
        r == saturated(a - b),
{
    let difference: i64 = a as i64 - b as i64;
    if difference < i32::MIN as i64 {
        i32::MIN
    } else if difference > i32::MAX as i64 {
        i32::MAX
    } else {
        difference as i32
    }
}

/// The larger of two integers.
pub fn larger(a: i32, b: i32) -> (r: i32)
    ensures
        r == int_max(a as int, b as int),
{
    if a < b {
        b
    } else {
        a
    }
}

/// The smaller of two integers.
pub fn smaller(a: i32, b: i32) -> (r: i32)
    ensures
        r == int_min(a as int, b as int),
{
    if a < b {
        a
    } else {
        b
    }
}

/// Half of `v`, rounded toward zero.
pub fn halved(v: i32) -> (r: i32)
    ensures
        r == half(v as int),
{
    if v >= 0 {
        v / 2
    } else {
        let magnitude: i64 = -(v as i64);
        let halved_magnitude: i64 = magnitude / 2;
        (-halved_magnitude) as i32
    }
}

/// A rectangle that holds the pixels `left <= x < right`, `top <= y < bottom`.
#[derive(Debug, Clone, Copy, PartialEq, Eq, Structural)]
pub struct Rect {
    pub left: i32,
    pub top: i32,
    pub right: i32,
    pub bottom: i32,
}

impl Rect {
    /// The rectangle with its top-left corner at `(x, y)`.
    pub open spec fn of(x: int, y: int, width: int, height: int) -> Rect {
        Rect {
            left: saturated(x),
            top: saturated(y),
            right: saturated(saturated(x) + width),
            bottom: saturated(saturated(y) + height),
        }
    }

    /// The rectangle holds no pixel.
    pub open spec fn vacant(self) -> bool {
        self.left >= self.right || self.top >= self.bottom
    }

    /// The pixel `(x, y)` lies in the rectangle.
    pub open spec fn covers(self, x: int, y: int) -> bool {
        self.left <= x < self.right && self.top <= y < self.bottom
    }

    /// Every edge of `self` lies within `outer`.
    pub open spec fn inside(self, outer: Rect) -> bool {
        outer.left <= self.left && outer.top <= self.top && self.right <= outer.right
            && self.bottom <= outer.bottom
    }

    /// Each edge of one rectangle lies strictly before the opposite edge of the other.
    pub open spec fn meets(self, other: Rect) -> bool {
        self.left < other.right && self.right > other.left && self.top < other.bottom
            && self.bottom > other.top
    }

    /// The rectangle between the inner edges of the two.
    pub open spec fn overlap(self, other: Rect) -> Rect {
        Rect {
            left: int_max(self.left as int, other.left as int) as i32,
            top: int_max(self.top as int, other.top as int) as i32,
            right: int_min(self.right as int, other.right as int) as i32,
            bottom: int_min(self.bottom as int, other.bottom as int) as i32,
        }
    }

    /// The common part of the two rectangles, if there is one.
    pub open spec fn common(self, other: Rect) -> Option<Rect> {
        if self.overlap(other).vacant() {
            None
        } else {
            Some(self.overlap(other))
        }
    }

    /// The number of pixels that the two rectangles share.
    pub open spec fn shared_area(self, other: Rect) -> int {
        match self.common(other) {
            Some(rect) => (rect.right - rect.left) * (rect.bottom - rect.top),
            None => 0,
        }
    }

    /// The distances between opposite edges fit in an `i32`.
    pub open spec fn measurable(self) -> bool {
        &&& i32::MIN <= self.right - self.left <= i32::MAX
        &&& i32::MIN <= self.bottom - self.top <= i32::MAX
    }

    /// The midpoint, each half extent rounded toward zero.
    pub open spec fn middle(self) -> (int, int) {
        (
            self.left + half(self.right - self.left),
            self.top + half(self.bottom - self.top),
        )
    }

    /// `(x, y)` clamped to the edges, the right and bottom edge last.
    pub open spec fn nearest(self, x: int, y: int) -> (int, int) {
        (
            int_min(int_max(x, self.left as int), self.right as int),
            int_min(int_max(y, self.top as int), self.bottom as int),
        )
    }

    pub fn from_xywh(x: i32, y: i32, width: i32, height: i32) -> (r: Self)
        ensures
            r == Rect::of(x as int, y as int, width as int, height as int),
            r.left == x,
            r.top == y,
            r.right == saturated(x + width),
            r.bottom == saturated(y + height),
            r.measurable(),
    {
        Self {
            left: x,
            top: y,
            right: saturating_sum(x, width),
            bottom: saturating_sum(y, height),
        }
    }

    pub fn width(self) -> (r: i32)
        ensures
            r == saturated(self.right - self.left),
    {
        saturating_difference(self.right, self.left)
    }

    pub fn height(self) -> (r: i32)
        ensures
            r == saturated(self.bottom - self.top),
    {
        saturating_difference(self.bottom, self.top)
    }

    pub fn is_empty(self) -> (r: bool)
        ensures
            r == self.vacant(),
    {
        self.left >= self.right || self.top >= self.bottom
    }

    pub fn intersects(self, other: Self) -> (r: bool)
        ensures
            r == self.meets(other),
    {
        self.left < other.right && self.right > other.left && self.top < other.bottom
            && self.bottom > other.top
    }

    pub fn intersection(self, other: Self) -> (r: Option<Self>)
        ensures
            r == self.common(other),
    {
        let rect = Self {
            left: larger(self.left, other.left),
            top: larger(self.top, other.top),
            right: smaller(self.right, other.right),
            bottom: smaller(self.bottom, other.bottom),
        };
        if rect.is_empty() {
            None
        } else {
            Some(rect)
        }
    }

    /// Center point of the rectangle, used as a leader-line endpoint.
    pub fn center(self) -> (r: (i32, i32))
        requires
            self.measurable(),
        ensures
            r.0 == self.middle().0,
            r.1 == self.middle().1,
    {
        (
            self.left + halved(self.right - self.left),
            self.top + halved(self.bottom - self.top),
        )
    }

    /// Point on this rectangle (clamped to its bounds) nearest to `point`. For a
    /// point outside the rectangle this lands on the nearest edge, which makes a
    /// tidier leader-line endpoint than the center.
    pub fn closest_point_to(self, point: (i32, i32)) -> (r: (i32, i32))
        ensures
            r.0 == self.nearest(point.0 as int, point.1 as int).0,
            r.1 == self.nearest(point.0 as int, point.1 as int).1,
    {
        (
            smaller(larger(point.0, self.left), self.right),
            smaller(larger(point.1, self.top), self.bottom),
        )
    }
}

/// How strongly a reserved region claims its pixels. `Highlight` and `Label` regions
/// are hard: a label is not placed on them. `Avoid` regions are soft: a label may sit
/// on one where nothing better is left.
#[derive(Debug, Clone, Copy, PartialEq, Eq, PartialOrd, Ord, Structural)]
pub enum RegionPriority {
    Highlight,
    Label,
    Avoid,
}

impl RegionPriority {
    /// The place in the order, the strongest claim first.
    pub open spec fn rank(self) -> int {
        match self {
            RegionPriority::Highlight => 0,
            RegionPriority::Label => 1,
            RegionPriority::Avoid => 2,
        }
    }

    /// Whether a region of this priority is as strong as one of `other`, or stronger.
    pub fn binds(self, other: RegionPriority) -> (r: bool)
        ensures
            r == (self.rank() <= other.rank()),
    {
        match self {
            RegionPriority::Highlight => true,
            RegionPriority::Label => match other {
                RegionPriority::Highlight => false,
                _ => true,
            },
            RegionPriority::Avoid => match other {
                RegionPriority::Avoid => true,
                _ => false,
            },
        }
    }
}

/// A reserved part of the frame.
#[derive(Debug, Clone, Copy, PartialEq, Eq, Structural)]
pub struct OccupiedRegion {
    pub priority: RegionPriority,
    pub rect: Rect,
}

/// The total area that `rect` shares with the regions whose rank lies in `lo..=hi`,
/// each region counted for itself.
pub open spec fn overlap_sum(regions: Seq<OccupiedRegion>, lo: int, hi: int, rect: Rect) -> int
    decreases regions.len(),
{
    if regions.len() == 0 {
        0
    } else {
        overlap_sum(regions.drop_last(), lo, hi, rect) + if lo <= regions.last().priority.rank()
            <= hi {
            regions.last().rect.shared_area(rect)
        } else {
            0
        }
    }
}

/// The areas that `n` regions share with any part of the frame sum up to what an `i64`
/// holds.
pub open spec fn frame_takes(frame: Rect, n: nat) -> bool {
    frame.vacant() || n * ((frame.right - frame.left) * (frame.bottom - frame.top)) <= i64::MAX
}

/// A frame that takes some regions takes fewer.
pub proof fn lemma_frame_takes_fewer(frame: Rect, n: nat, m: nat)
    requires
        frame_takes(frame, n),
        m <= n,
    ensures
        frame_takes(frame, m),
{
    let w = frame.right - frame.left;
    let h = frame.bottom - frame.top;
    if !frame.vacant() {
        assert(m * (w * h) <= n * (w * h)) by (nonlinear_arith)
            requires
                m <= n,
                w > 0,
                h > 0,
        ;
    }
}

/// What a registry holds: the frame, and the regions in the order of their reservation.
#[verifier::ext_equal]
pub struct Occupancy {
    pub frame: Rect,
    pub regions: Seq<OccupiedRegion>,
}

impl Occupancy {
    /// A frame of the given size with nothing reserved.
    pub open spec fn fresh(width: int, height: int) -> Occupancy {
        Occupancy { frame: Rect::of(0, 0, width, height), regions: Seq::empty() }
    }

    /// The frame starts at the origin, and every region is a non-empty part of it.
    pub open spec fn sound(self) -> bool {
        &&& self.frame.left == 0
        &&& self.frame.top == 0
        &&& forall|i: int|
            0 <= i < self.regions.len() ==> !(#[trigger] self.regions[i]).rect.vacant()
                && self.regions[i].rect.inside(self.frame)
    }

    /// The part of `rect` that lies in the frame.
    pub open spec fn clip(self, rect: Rect) -> Option<Rect> {
        rect.common(self.frame)
    }

    /// A region as strong as `priority` meets the visible part of `rect`.
    pub open spec fn taken(self, priority: RegionPriority, rect: Rect) -> bool {
        match self.clip(rect) {
            Some(clipped) => exists|i: int|
                0 <= i < self.regions.len() && (#[trigger] self.regions[i]).priority.rank()
                    <= priority.rank() && self.regions[i].rect.meets(clipped),
            None => false,
        }
    }

    /// The area that the visible part of `rect` shares with the regions as strong as
    /// `priority`.
    pub open spec fn hard_area(self, priority: RegionPriority, rect: Rect) -> Option<int> {
        match self.clip(rect) {
            Some(clipped) => Some(overlap_sum(self.regions, 0, priority.rank(), clipped)),
            None => None,
        }
    }

    /// The area that the visible part of `rect` shares with the soft regions.
    pub open spec fn soft_area(self, rect: Rect) -> Option<int> {
        match self.clip(rect) {
            Some(clipped) => Some(overlap_sum(self.regions, 2, 2, clipped)),
            None => None,
        }
    }

    /// With the visible part of `rect` reserved, whatever it overlaps; unchanged where
    /// nothing of `rect` is visible.
    pub open spec fn with_region(self, priority: RegionPriority, rect: Rect) -> Occupancy {
        match self.clip(rect) {
            Some(clipped) => Occupancy {
                frame: self.frame,
                regions: self.regions.push(OccupiedRegion { priority, rect: clipped }),
            },
            None => self,
        }
    }

    /// With `rect` reserved if it is visible and nothing as strong stands in its way.
    pub open spec fn reserving(self, priority: RegionPriority, rect: Rect) -> Occupancy {
        if self.taken(priority, rect) {
            self
        } else {
            self.with_region(priority, rect)
        }
    }

    /// Every sum of shared areas in this frame fits in an `i64`.
    pub open spec fn summable(self) -> bool {
        frame_takes(self.frame, self.regions.len())
    }
}

/// The regions of a frame that are taken, and by what.
#[derive(Debug)]
pub struct OccupiedRegionRegistry {
    frame: Rect,
    regions: Vec<OccupiedRegion>,
}

impl View for OccupiedRegionRegistry {
    type V = Occupancy;

    closed spec fn view(&self) -> Occupancy {
        Occupancy { frame: self.frame, regions: self.regions@ }
    }
}

impl Clone for OccupiedRegionRegistry {
    fn clone(&self) -> (r: Self)
        ensures
            r@ == self@,
    {
        proof {
            use_type_invariant(self);
        }
        let regions = self.regions.clone();
        assert(regions@ =~= self.regions@);
        Self { frame: self.frame, regions }
    }
}

impl OccupiedRegionRegistry {
    /// The frame starts at the origin, and every region is a non-empty part of it.
    #[verifier::type_invariant]
    pub open spec fn well_formed(self) -> bool {
        self@.sound()
    }

    pub fn new(frame_width: i32, frame_height: i32) -> (r: Self)
        ensures
            r@ == Occupancy::fresh(frame_width as int, frame_height as int),
            r@.sound(),
    {
        Self { frame: Rect::from_xywh(0, 0, frame_width, frame_height), regions: Vec::new() }
    }

    pub fn clear(&mut self, frame_width: i32, frame_height: i32)
        ensures
            final(self)@ == Occupancy::fresh(frame_width as int, frame_height as int),
            final(self)@.sound(),
    {
        *self = Self::new(frame_width, frame_height);
    }

    pub fn reserve_highlight(&mut self, rect: Rect) -> (r: bool)
        ensures
            final(self)@.sound(),
            final(self)@ == old(self)@.reserving(RegionPriority::Highlight, rect),
            r == (old(self)@.clip(rect) is Some && !old(self)@.taken(
                RegionPriority::Highlight,
                rect,
            )),
    {
        self.reserve(RegionPriority::Highlight, rect)
    }

    pub fn reserve_label(&mut self, rect: Rect) -> (r: bool)
        ensures
            final(self)@.sound(),
            final(self)@ == old(self)@.reserving(RegionPriority::Label, rect),
            r == (old(self)@.clip(rect) is Some && !old(self)@.taken(RegionPriority::Label, rect)),
    {
        self.reserve(RegionPriority::Label, rect)
    }

    /// Reserve `rect`, clipped to the frame, as a soft region. Soft regions may overlap
    /// anything. Returns whether any of `rect` lies in the frame.
    pub fn reserve_avoid(&mut self, rect: Rect) -> (r: bool)
        ensures
            final(self)@.sound(),
            final(self)@ == old(self)@.with_region(RegionPriority::Avoid, rect),
            r == (old(self)@.clip(rect) is Some),
    {
        match self.force_reserve(RegionPriority::Avoid, rect) {
            Some(_) => true,
            None => false,
        }
    }

    /// Put a region, which is a part of the frame, behind those that are there.
    fn append(&mut self, region: OccupiedRegion)
        requires
            !region.rect.vacant(),
            region.rect.inside(old(self)@.frame),
        ensures
            final(self)@.sound(),
            final(self)@ == (Occupancy {
                frame: old(self)@.frame,
                regions: old(self)@.regions.push(region),
            }),
    {
        proof {
            use_type_invariant(&*self);
        }
        let ghost before = self.regions@;
        let mut regions: Vec<OccupiedRegion> = Vec::new();
        std::mem::swap(&mut self.regions, &mut regions);
        regions.push(region);
        assert forall|i: int| 0 <= i < regions@.len() implies !(
        #[trigger] regions@[i]).rect.vacant() && regions@[i].rect.inside(self.frame) by {
            if i < before.len() {
                assert(regions@[i] == before[i]);
            }
        }
        self.regions = regions;
    }

    /// Whether a region as strong as `priority` meets `clipped`.
    fn blocked(&self, priority: RegionPriority, clipped: Rect) -> (r: bool)
        ensures
            r == exists|i: int|
                0 <= i < self@.regions.len() && (#[trigger] self@.regions[i]).priority.rank()
                    <= priority.rank() && self@.regions[i].rect.meets(clipped),
    {
        let mut i: usize = 0;
        while i < self.regions.len()
            invariant
                i <= self.regions.len(),
                forall|j: int|
                    0 <= j < i ==> !((#[trigger] self@.regions[j]).priority.rank()
                        <= priority.rank() && self@.regions[j].rect.meets(clipped)),
            decreases self.regions.len() - i,
        {
            let region = self.regions[i];
            assert(region == self@.regions[i as int]);
            if region.priority.binds(priority) && region.rect.intersects(clipped) {
                return true;
            }
            i = i + 1;
        }
        false
    }

    pub fn reserve(&mut self, priority: RegionPriority, rect: Rect) -> (r: bool)
        ensures
            final(self)@.sound(),
            final(self)@ == old(self)@.reserving(priority, rect),
            r == (old(self)@.clip(rect) is Some && !old(self)@.taken(priority, rect)),
    {
        proof {
            use_type_invariant(&*self);
        }
        let clipped = match rect.intersection(self.frame) {
            Some(clipped) => clipped,
            None => return false,
        };
        if self.blocked(priority, clipped) {
            return false;
        }
        self.append(OccupiedRegion { priority, rect: clipped });
        true
    }

    pub fn is_occupied(&self, priority: RegionPriority, rect: Rect) -> (r: bool)
        ensures
            r == self@.taken(priority, rect),
    {
        match rect.intersection(self.frame) {
            Some(clipped) => self.blocked(priority, clipped),
            None => false,
        }
    }

    /// The area that `clipped`, a part of the frame, shares with the regions from `lo`
    /// to `hi`.
    fn shared_total(&self, lo: RegionPriority, hi: RegionPriority, clipped: Rect) -> (r: i64)
        requires
            clipped.left >= 0,
            clipped.top >= 0,
            !clipped.vacant(),
            overlap_sum(self@.regions, lo.rank(), hi.rank(), clipped) <= i64::MAX,
        ensures
            r == overlap_sum(self@.regions, lo.rank(), hi.rank(), clipped),
    {
        let mut total: i64 = 0;
        let mut i: usize = 0;
        let ghost all = self@.regions;
        assert(all.take(0) =~= Seq::<OccupiedRegion>::empty());
        while i < self.regions.len()
            invariant
                i <= self.regions.len(),
                all == self@.regions,
                all == self.regions@,
                clipped.left >= 0,
                clipped.top >= 0,
                !clipped.vacant(),
                overlap_sum(all, lo.rank(), hi.rank(), clipped) <= i64::MAX,
                0 <= total == overlap_sum(all.take(i as int), lo.rank(), hi.rank(), clipped),
            decreases self.regions.len() - i,
        {
            let region = self.regions[i];
            proof {
                let next = all.take(i + 1);
                assert(next.drop_last() =~= all.take(i as int));
                assert(next.last() == region);
                lemma_overlap_sum_grows(all, i + 1, lo.rank(), hi.rank(), clipped);
                lemma_shared_area_bound(region.rect, clipped);
            }
            if lo.binds(region.priority) && region.priority.binds(hi) {
                if let Some(shared) = region.rect.intersection(clipped) {
                    let width: i64 = shared.width() as i64;
                    let height: i64 = shared.height() as i64;
                    assert(width * height == region.rect.shared_area(clipped));
                    assert(0 <= width * height <= 0x7fff_ffff * 0x7fff_ffff) by (nonlinear_arith)
                        requires
                            0 <= width <= 0x7fff_ffff,
                            0 <= height <= 0x7fff_ffff,
                    ;
                    total = total + width * height;
                }
            }
            i = i + 1;
        }
        assert(all.take(i as int) =~= all);
        total
    }

    /// Total area where `rect`, clipped to the frame, overlaps already-reserved
    /// regions of priority `priority` or higher. Returns `None` when `rect`
    /// lies entirely outside the frame.
    pub fn overlap_area(&self, priority: RegionPriority, rect: Rect) -> (r: Option<i64>)
        requires
            self@.hard_area(priority, rect) matches Some(area) ==> area <= i64::MAX,
        ensures
            match (r, self@.hard_area(priority, rect)) {
                (Some(area), Some(expected)) => area == expected,
                (None, None) => true,
                _ => false,
            },
    {
        proof {
            use_type_invariant(&*self);
        }
        match rect.intersection(self.frame) {
            Some(clipped) => Some(self.shared_total(RegionPriority::Highlight, priority, clipped)),
            None => None,
        }
    }

    pub fn label_overlap_area(&self, rect: Rect) -> (r: Option<i64>)
        requires
            self@.hard_area(RegionPriority::Label, rect) matches Some(area) ==> area <= i64::MAX,
        ensures
            match (r, self@.hard_area(RegionPriority::Label, rect)) {
                (Some(area), Some(expected)) => area == expected,
                (None, None) => true,
                _ => false,
            },
    {
        self.overlap_area(RegionPriority::Label, rect)
    }

    /// Total area where `rect`, clipped to the frame, overlaps soft regions. Returns
    /// `None` when `rect` lies entirely outside the frame.
    pub fn avoid_overlap_area(&self, rect: Rect) -> (r: Option<i64>)
        requires
            self@.soft_area(rect) matches Some(area) ==> area <= i64::MAX,
        ensures
            match (r, self@.soft_area(rect)) {
                (Some(area), Some(expected)) => area == expected,
                (None, None) => true,
                _ => false,
            },
    {
        proof {
            use_type_invariant(&*self);
        }
        match rect.intersection(self.frame) {
            Some(clipped) => Some(
                self.shared_total(RegionPriority::Avoid, RegionPriority::Avoid, clipped),
            ),
            None => None,
        }
    }

    /// Reserve `rect`, clipped to the frame, unconditionally: even when it
    /// overlaps existing regions. Returns the clipped rect that was inserted,
    /// or `None` if `rect` lies entirely outside the frame.
    pub fn force_reserve(&mut self, priority: RegionPriority, rect: Rect) -> (r: Option<Rect>)
        ensures
            final(self)@.sound(),
            final(self)@ == old(self)@.with_region(priority, rect),
            r == old(self)@.clip(rect),
    {
        proof {
            use_type_invariant(&*self);
        }
        let clipped = match rect.intersection(self.frame) {
            Some(clipped) => clipped,
            None => return None,
        };
        self.append(OccupiedRegion { priority, rect: clipped });
        Some(clipped)
    }

    pub fn force_reserve_label(&mut self, rect: Rect) -> (r: Option<Rect>)
        ensures
            final(self)@.sound(),
            final(self)@ == old(self)@.with_region(RegionPriority::Label, rect),
            r == old(self)@.clip(rect),
    {
        self.force_reserve(RegionPriority::Label, rect)
    }

    pub fn len(&self) -> (r: usize)
        ensures
            r == self@.regions.len(),
    {
        self.regions.len()
    }

    pub fn is_empty(&self) -> (r: bool)
        ensures
            r == (self@.regions.len() == 0),
    {
        self.regions.is_empty()
    }
}

/// A shared area is never negative, and no larger than either rectangle.
pub proof fn lemma_shared_area_bound(a: Rect, b: Rect)
    requires
        !b.vacant(),
    ensures
        0 <= a.shared_area(b) <= (b.right - b.left) * (b.bottom - b.top),
{
    if let Some(rect) = a.common(b) {
        let w = rect.right - rect.left;
        let h = rect.bottom - rect.top;
        let bw = b.right - b.left;
        let bh = b.bottom - b.top;
        assert(0 <= w * h <= bw * bh) by (nonlinear_arith)
            requires
                0 <= w <= bw,
                0 <= h <= bh,
        ;
    } else {
        let bw = b.right - b.left;
        let bh = b.bottom - b.top;
        assert(0 <= bw * bh) by (nonlinear_arith)
            requires
                0 <= bw,
                0 <= bh,
        ;
    }
}

/// The sum over a prefix of the regions is no larger than the sum over all of them.
proof fn lemma_overlap_sum_grows(
    regions: Seq<OccupiedRegion>,
    n: int,
    lo: int,
    hi: int,
    rect: Rect,
)
    requires
        0 <= n <= regions.len(),
        !rect.vacant(),
    ensures
        0 <= overlap_sum(regions.take(n), lo, hi, rect) <= overlap_sum(regions, lo, hi, rect),
    decreases regions.len(),
{
    if n < regions.len() {
        lemma_overlap_sum_grows(regions.drop_last(), n, lo, hi, rect);
        assert(regions.drop_last().take(n) =~= regions.take(n));
        lemma_shared_area_bound(regions.last().rect, rect);
    } else {
        assert(regions.take(n) =~= regions);
        if regions.len() > 0 {
            lemma_overlap_sum_grows(regions.drop_last(), n - 1, lo, hi, rect);
            lemma_shared_area_bound(regions.last().rect, rect);
        }
    }
}

/// No sum of shared areas exceeds the number of regions times the area of the rectangle.
proof fn lemma_overlap_sum_bound(regions: Seq<OccupiedRegion>, lo: int, hi: int, rect: Rect)
    requires
        !rect.vacant(),
    ensures
        0 <= overlap_sum(regions, lo, hi, rect) <= regions.len() * ((rect.right - rect.left) * (
        rect.bottom - rect.top)),
    decreases regions.len(),
{
    let area = (rect.right - rect.left) * (rect.bottom - rect.top);
    if regions.len() > 0 {
        lemma_overlap_sum_bound(regions.drop_last(), lo, hi, rect);
        lemma_shared_area_bound(regions.last().rect, rect);
        let n = regions.len() as int;
        assert((n - 1) * area + area == n * area) by (nonlinear_arith);
    } else {
        assert(0 * area == 0) by (nonlinear_arith);
    }
}

/// Where the number of regions times the area of the frame fits in an `i64`, so does
/// every overlap area.
pub proof fn law_summable_areas_fit(o: Occupancy, priority: RegionPriority, rect: Rect)
    requires
        o.sound(),
        o.summable(),
    ensures
        o.hard_area(priority, rect) matches Some(area) ==> 0 <= area <= i64::MAX,
        o.soft_area(rect) matches Some(area) ==> 0 <= area <= i64::MAX,
{
    if let Some(clipped) = o.clip(rect) {
        lemma_overlap_sum_bound(o.regions, 0, priority.rank(), clipped);
        lemma_overlap_sum_bound(o.regions, 2, 2, clipped);
        let w = clipped.right - clipped.left;
        let h = clipped.bottom - clipped.top;
        let fw = o.frame.right - o.frame.left;
        let fh = o.frame.bottom - o.frame.top;
        let n = o.regions.len() as int;
        assert(n * (w * h) <= n * (fw * fh)) by (nonlinear_arith)
            requires
                0 <= w <= fw,
                0 <= h <= fh,
                0 <= n,
        ;
    }
}

/// Two rectangles with a pixel each intersect exactly where they have a pixel in common,
/// and the intersection is the set of those pixels.
pub proof fn law_intersection_is_the_common_pixels(a: Rect, b: Rect, x: int, y: int)
    ensures
        (a.covers(x, y) && b.covers(x, y)) == (a.common(b) matches Some(c) && c.covers(x, y)),
        !a.vacant() && !b.vacant() ==> (a.meets(b) == (a.common(b) is Some)),
        a.common(b) == b.common(a),
        a.common(b) matches Some(c) ==> c.inside(a) && c.inside(b) && !c.vacant(),
{
}

/// Two rectangles share an area exactly where they intersect.
pub proof fn law_shared_area_is_positive_where_rects_meet(a: Rect, b: Rect)
    requires
        !a.vacant(),
        !b.vacant(),
    ensures
        a.meets(b) == (a.shared_area(b) > 0),
        a.shared_area(b) == b.shared_area(a),
{
    if let Some(c) = a.common(b) {
        let w = c.right - c.left;
        let h = c.bottom - c.top;
        assert(w * h > 0) by (nonlinear_arith)
            requires
                w > 0,
                h > 0,
        ;
    }
}

/// The closest point lies on a rectangle whose edges are in order, is the point itself
/// where that lies on the rectangle, and no other point of the rectangle is nearer on
/// either axis.
pub proof fn law_closest_point_is_nearest(r: Rect, x: int, y: int, px: int, py: int)
    requires
        r.left <= px <= r.right,
        r.top <= py <= r.bottom,
    ensures
        r.left <= r.nearest(x, y).0 <= r.right,
        r.top <= r.nearest(x, y).1 <= r.bottom,
        r.nearest(px, py) == (px, py),
        int_max(x - r.nearest(x, y).0, r.nearest(x, y).0 - x) <= int_max(x - px, px - x),
        int_max(y - r.nearest(x, y).1, r.nearest(x, y).1 - y) <= int_max(y - py, py - y),
{
}

/// The center of a rectangle whose edges are in order lies on it.
pub proof fn law_center_lies_on_the_rect(r: Rect)
    requires
        r.left <= r.right,
        r.top <= r.bottom,
    ensures
        r.left <= r.middle().0 <= r.right,
        r.top <= r.middle().1 <= r.bottom,
        r.nearest(r.middle().0, r.middle().1) == r.middle(),
{
}

proof fn lemma_overlap_sum_zero(regions: Seq<OccupiedRegion>, hi: int, rect: Rect)
    requires
        !rect.vacant(),
        forall|i: int| 0 <= i < regions.len() ==> !(#[trigger] regions[i]).rect.vacant(),
    ensures
        (overlap_sum(regions, 0, hi, rect) == 0) == (forall|i: int|
            0 <= i < regions.len() && (#[trigger] regions[i]).priority.rank() <= hi
                ==> !regions[i].rect.meets(rect)),
        overlap_sum(regions, 0, hi, rect) >= 0,
    decreases regions.len(),
{
    if regions.len() > 0 {
        let rest = regions.drop_last();
        assert forall|i: int| 0 <= i < rest.len() implies !(#[trigger] rest[i]).rect.vacant() by {
            assert(rest[i] == regions[i]);
        }
        lemma_overlap_sum_zero(rest, hi, rect);
        law_shared_area_is_positive_where_rects_meet(regions.last().rect, rect);
        lemma_shared_area_bound(regions.last().rect, rect);
        let last = regions.len() - 1;
        if overlap_sum(regions, 0, hi, rect) == 0 {
            assert forall|i: int|
                0 <= i < regions.len() && (#[trigger] regions[i]).priority.rank()
                    <= hi implies !regions[i].rect.meets(rect) by {
                if i < last {
                    assert(rest[i] == regions[i]);
                }
            }
        }
        if forall|i: int|
            0 <= i < regions.len() && (#[trigger] regions[i]).priority.rank() <= hi
                ==> !regions[i].rect.meets(rect) {
            assert forall|i: int|
                0 <= i < rest.len() && (#[trigger] rest[i]).priority.rank()
                    <= hi implies !rest[i].rect.meets(rect) by {
                assert(rest[i] == regions[i]);
            }
            assert(regions[last] == regions.last());
        }
    }
}

/// A rectangle overlaps no region as strong as `priority` exactly where its overlap area
/// with them is zero; a reservation at that priority succeeds on just those rectangles
/// that are visible.
pub proof fn law_free_means_no_overlap_area(o: Occupancy, priority: RegionPriority, rect: Rect)
    requires
        o.sound(),
    ensures
        o.hard_area(priority, rect) matches Some(area) ==> area >= 0 && (area == 0) == !o.taken(
            priority,
            rect,
        ),
        o.hard_area(priority, rect) is None ==> !o.taken(priority, rect),
{
    if let Some(clipped) = o.clip(rect) {
        assert forall|i: int| 0 <= i < o.regions.len() implies !(
        #[trigger] o.regions[i]).rect.vacant() by {}
        lemma_overlap_sum_zero(o.regions, priority.rank(), clipped);
    }
}

/// A region that was reserved, and not forced, meets no earlier region as strong as itself.
pub proof fn law_reserved_regions_stay_clear(
    o: Occupancy,
    priority: RegionPriority,
    rect: Rect,
    i: int,
)
    requires
        o.sound(),
        o.clip(rect) is Some,
        !o.taken(priority, rect),
        0 <= i < o.regions.len(),
        o.regions[i].priority.rank() <= priority.rank(),
    ensures
        o.reserving(priority, rect).sound(),
        o.reserving(priority, rect).regions.len() == o.regions.len() + 1,
        o.reserving(priority, rect).regions[i] == o.regions[i],
        !o.reserving(priority, rect).regions[o.regions.len() as int].rect.meets(o.regions[i].rect),
{
    assert(!o.regions[i].rect.meets(o.clip(rect)->0));
}

/// Of any two regions that meet, the later one is the stronger.
pub open spec fn in_order(o: Occupancy) -> bool {
    forall|i: int, j: int|
        0 <= i < j < o.regions.len() && (#[trigger] o.regions[i]).rect.meets(
            (#[trigger] o.regions[j]).rect,
        ) ==> o.regions[j].priority.rank() < o.regions[i].priority.rank()
}

/// Without forced reservations a later region meets an earlier one only if it outranks it:
/// this holds of a frame with nothing reserved, and every reservation keeps it.
pub proof fn law_reserving_keeps_the_order(
    o: Occupancy,
    priority: RegionPriority,
    rect: Rect,
    width: int,
    height: int,
)
    ensures
        in_order(Occupancy::fresh(width, height)),
        in_order(o) ==> in_order(o.reserving(priority, rect)),
{
    let after = o.reserving(priority, rect);
    if in_order(o) && !o.taken(priority, rect) && o.clip(rect) is Some {
        let n = o.regions.len() as int;
        assert forall|i: int, j: int|
            0 <= i < j < after.regions.len() && (#[trigger] after.regions[i]).rect.meets(
                (#[trigger] after.regions[j]).rect,
            ) implies after.regions[j].priority.rank() < after.regions[i].priority.rank() by {
            assert(after.regions[i] == o.regions[i]);
            if j < n {
                assert(after.regions[j] == o.regions[j]);
            }
        }
    }
}

/// With regions reserved one after the other, each if nothing as strong stands in its way.
pub open spec fn reserving_all(o: Occupancy, wishes: Seq<OccupiedRegion>) -> Occupancy
    decreases wishes.len(),
{
    if wishes.len() == 0 {
        o
    } else {
        reserving_all(o, wishes.drop_last()).reserving(wishes.last().priority, wishes.last().rect)
    }
}

/// However many regions are reserved in a frame, of any two that meet the later one is the
/// stronger, as long as none was forced.
pub proof fn law_reserved_regions_are_in_order(
    width: int,
    height: int,
    wishes: Seq<OccupiedRegion>,
)
    ensures
        in_order(reserving_all(Occupancy::fresh(width, height), wishes)),
    decreases wishes.len(),
{
    if wishes.len() > 0 {
        law_reserved_regions_are_in_order(width, height, wishes.drop_last());
        law_reserving_keeps_the_order(
            reserving_all(Occupancy::fresh(width, height), wishes.drop_last()),
            wishes.last().priority,
            wishes.last().rect,
            width,
            height,
        );
    }
}

/// A soft region stands in the way of no highlight and no label.
pub proof fn law_soft_regions_never_block(o: Occupancy, soft: Rect, rect: Rect)
    requires
        o.sound(),
    ensures
        o.with_region(RegionPriority::Avoid, soft).taken(RegionPriority::Label, rect) == o.taken(
            RegionPriority::Label,
            rect,
        ),
        o.with_region(RegionPriority::Avoid, soft).taken(RegionPriority::Highlight, rect)
            == o.taken(RegionPriority::Highlight, rect),
        o.with_region(RegionPriority::Avoid, soft).hard_area(RegionPriority::Label, rect)
            == o.hard_area(RegionPriority::Label, rect),
{
    let with = o.with_region(RegionPriority::Avoid, soft);
    if o.clip(soft) is Some {
        assert(with.regions.drop_last() =~= o.regions);
        assert(with.regions.len() == o.regions.len() + 1);
        assert(forall|i: int| 0 <= i < o.regions.len() ==> with.regions[i] == o.regions[i]);
        if let Some(clipped) = o.clip(rect) {
            if o.taken(RegionPriority::Label, rect) {
                let i = choose|i: int|
                    0 <= i < o.regions.len() && (#[trigger] o.regions[i]).priority.rank() <= 1
                        && o.regions[i].rect.meets(clipped);
                assert(with.regions[i] == o.regions[i]);
            }
            if o.taken(RegionPriority::Highlight, rect) {
                let i = choose|i: int|
                    0 <= i < o.regions.len() && (#[trigger] o.regions[i]).priority.rank() <= 0
                        && o.regions[i].rect.meets(clipped);
                assert(with.regions[i] == o.regions[i]);
            }
        }
    }
}

/// Whether a frame of the given size takes that many regions.
pub fn frame_has_room(width: i32, height: i32, regions: usize) -> (r: bool)
    ensures
        r == frame_takes(Rect::of(0, 0, width as int, height as int), regions as nat),
{
    if width <= 0 || height <= 0 {
        return true;
    }
    let w: u64 = width as u64;
    let h: u64 = height as u64;
    assert(0 < w * h <= 0x7fff_ffff * 0x7fff_ffff) by (nonlinear_arith)
        requires
            0 < w <= 0x7fff_ffff,
            0 < h <= 0x7fff_ffff,
    ;
    let area: u64 = w * h;
    let most: u64 = 0x7fff_ffff_ffff_ffff / area;
    let n: u64 = regions as u64;
    assert((n <= most) == (n * area <= 0x7fff_ffff_ffff_ffff)) by (nonlinear_arith)
        requires
            most == 0x7fff_ffff_ffff_ffffu64 as int / area as int,
            0 < area,
    ;
    n <= most
}

/// A sum or difference that leaves the coordinate range stops at its end; one that does not
/// is exact.
pub proof fn law_saturated_values_are_nearest(v: int, other: i32)
    ensures
        i32::MIN <= v <= i32::MAX ==> saturated(v) == v,
        int_max(v - saturated(v), saturated(v) - v) <= int_max(v - other, other - v),
{
}

/// The center of a rectangle whose edges are in order lies half-way between its edges, or
/// half a pixel before that.
pub proof fn law_center_lies_half_way(r: Rect)
    requires
        r.left <= r.right,
        r.top <= r.bottom,
    ensures
        0 <= r.left + r.right - 2 * r.middle().0 <= 1,
        0 <= r.top + r.bottom - 2 * r.middle().1 <= 1,
{
}

/// Two rectangles with a pixel each meet exactly where some pixel lies in both.
pub proof fn law_rects_meet_where_they_share_a_pixel(a: Rect, b: Rect)
    requires
        !a.vacant(),
        !b.vacant(),
    ensures
        a.meets(b) == exists|x: int, y: int|
            a.left <= x < a.right && a.top <= y < a.bottom && #[trigger] b.covers(x, y),
{
    if a.meets(b) {
        let x = int_max(a.left as int, b.left as int);
        let y = int_max(a.top as int, b.top as int);
        assert(b.covers(x, y));
    }
}

/// The shared area of two rectangles is the product of the lengths that they have in common
/// along either axis, none where they have none in common along one.
pub proof fn law_shared_area_is_what_both_cover(a: Rect, b: Rect, w: int, h: int)
    requires
        w == int_min(a.right as int, b.right as int) - int_max(a.left as int, b.left as int),
        h == int_min(a.bottom as int, b.bottom as int) - int_max(a.top as int, b.top as int),
    ensures
        w > 0 && h > 0 ==> a.shared_area(b) == w * h,
        w <= 0 || h <= 0 ==> a.shared_area(b) == 0,
        a.shared_area(a) == if a.vacant() {
            0
        } else {
            (a.right - a.left) * (a.bottom - a.top)
        },
{
}

/// A rectangle is taken exactly where a region as strong covers one of its pixels in the
/// frame: highlights stand in the way of everything, labels of labels and soft regions, and
/// soft regions only of one another.
pub proof fn law_taken_means_a_pixel_is_covered(o: Occupancy, priority: RegionPriority, rect: Rect)
    requires
        o.sound(),
    ensures
        o.taken(priority, rect) == exists|i: int, x: int, y: int|
            #![trigger o.regions[i].rect.covers(x, y)]
            {
                &&& 0 <= i < o.regions.len()
                &&& o.regions[i].priority == RegionPriority::Highlight || priority
                    == RegionPriority::Avoid || (o.regions[i].priority == RegionPriority::Label
                    && priority == RegionPriority::Label)
                &&& o.regions[i].rect.covers(x, y)
                &&& rect.left <= x < rect.right
                &&& rect.top <= y < rect.bottom
                &&& o.frame.left <= x < o.frame.right
                &&& o.frame.top <= y < o.frame.bottom
            },
{
    if o.taken(priority, rect) {
        let clipped = o.clip(rect)->0;
        let i = choose|i: int|
            0 <= i < o.regions.len() && (#[trigger] o.regions[i]).priority.rank()
                <= priority.rank() && o.regions[i].rect.meets(clipped);
        let x = int_max(o.regions[i].rect.left as int, clipped.left as int);
        let y = int_max(o.regions[i].rect.top as int, clipped.top as int);
        assert(o.regions[i].rect.covers(x, y));
    } else {
        assert forall|i: int, x: int, y: int|
            #![trigger o.regions[i].rect.covers(x, y)]
            0 <= i < o.regions.len() && o.regions[i].rect.covers(x, y) && rect.covers(x, y)
                && o.frame.covers(x, y) implies o.regions[i].priority.rank()
            > priority.rank() by {
            assert(o.clip(rect)->0.covers(x, y));
            assert(o.regions[i].rect.meets(o.clip(rect)->0));
        }
    }
}

/// A region counts by the area of it that a position covers: a soft one in the soft area
/// alone, any other in the area that is hard for a label alone. In a frame with nothing
/// reserved a visible position covers nothing.
pub proof fn law_regions_count_by_their_shared_area(
    o: Occupancy,
    priority: RegionPriority,
    region: Rect,
    rect: Rect,
    width: int,
    height: int,
)
    requires
        o.clip(region) is Some,
        o.clip(rect) is Some,
    ensures
        ({
            let after = o.with_region(priority, region);
            let shared = o.clip(region)->0.shared_area(o.clip(rect)->0);
            let soft = priority == RegionPriority::Avoid;
            &&& after.soft_area(rect)->0 == o.soft_area(rect)->0 + if soft {
                shared
            } else {
                0
            }
            &&& after.hard_area(RegionPriority::Label, rect)->0 == o.hard_area(
                RegionPriority::Label,
                rect,
            )->0 + if soft {
                0
            } else {
                shared
            }
        }),
        Occupancy::fresh(width, height).soft_area(rect) matches Some(area) ==> area == 0,
        Occupancy::fresh(width, height).hard_area(RegionPriority::Label, rect) matches Some(area)
            ==> area == 0,
{
    let after = o.with_region(priority, region);
    assert(after.regions.drop_last() =~= o.regions);
}

} // verus!
