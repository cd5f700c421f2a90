//! Cross-element claimed-region coordination.
//!
//! Composable overlay elements need to avoid drawing on top of each other. Each element
//! that draws into the frame claims the regions it used; downstream elements read the
//! claims and seed their registry of occupied regions, so placement steers clear.
//!
//! * Regions are expressed in the negotiated frame's pixel coordinate space.
//! * An element claims after drawing and reads what is already there, so a chain
//!   `A ! B ! ours` lets `ours` avoid both `A` and `B`.

use vstd::prelude::*;

use crate::geometry::{OccupiedRegionRegistry, Rect, RegionPriority};
use crate::render::{content_bounds, DrawCommand};

verus! {

/// Default element priority. All overlays default to the same value, so out of
/// the box every element respects every other (equal priorities mutually avoid).
pub const DEFAULT_PRIORITY: i32 = 0;

/// Number of `i32` values packed per region in the metadata's `coords` array, in
/// order: x, y, w, h, kind, priority.
pub const COORDS_PER_REGION: usize = 6;

/// How strongly a claim should be honoured by downstream elements.
#[derive(Debug, Clone, Copy, PartialEq, Eq, Structural)]
pub enum ClaimKind {
    /// Hard claim: downstream must not draw over this region (e.g. another
    /// overlay's rendered content).
    Occlude,
    /// Soft hint: avoid drawing here if an alternative placement exists (e.g. a
    /// salient image area a detector flagged).
    Avoid,
}

impl ClaimKind {
    /// The number that stands for the kind in the metadata.
    pub open spec fn code(self) -> i32 {
        match self {
            ClaimKind::Occlude => 0,
            ClaimKind::Avoid => 1,
        }
    }

    /// The kind that a number in the metadata stands for.
    pub open spec fn of_code(value: i32) -> ClaimKind {
        if value == 1 {
            ClaimKind::Avoid
        } else {
            ClaimKind::Occlude
        }
    }

    pub fn as_i32(self) -> (r: i32)
        ensures
            r == self.code(),
    {
        match self {
            ClaimKind::Occlude => 0,
            ClaimKind::Avoid => 1,
        }
    }

    pub fn from_i32(value: i32) -> (r: Self)
        ensures
            r == ClaimKind::of_code(value),
    {
        if value == 1 {
            ClaimKind::Avoid
        } else {
            ClaimKind::Occlude
        }
    }
}

/// A region of the frame an element has claimed.
///
/// Three orthogonal properties describe a claim:
///   * `kind`: how others must treat the space it occupies (hard [`ClaimKind::Occlude`]
///     = don't draw over it; soft [`ClaimKind::Avoid`] = prefer not to).
///   * `priority`: how important the content is. A consumer placing content of
///     priority `P` honours claims with priority `>= P` and overdraws claims with
///     priority `< P`. Higher wins.
///   * `owner`: the claiming element. Lets a consumer skip its own claims.
#[derive(Debug, PartialEq, Eq)]
pub struct ClaimedRegion {
    pub rect: Rect,
    pub kind: ClaimKind,
    pub owner: String,
    pub priority: i32,
}

/// A claim with its owner by its characters.
#[verifier::ext_equal]
pub struct Claim {
    pub rect: Rect,
    pub kind: ClaimKind,
    pub owner: Seq<char>,
    pub priority: i32,
}

impl View for ClaimedRegion {
    type V = Claim;

    open spec fn view(&self) -> Claim {
        Claim { rect: self.rect, kind: self.kind, owner: self.owner@, priority: self.priority }
    }
}

/// The claims of a list of regions.
pub open spec fn claims(regions: Seq<ClaimedRegion>) -> Seq<Claim> {
    regions.map_values(|region: ClaimedRegion| region@)
}

impl Clone for ClaimedRegion {
    fn clone(&self) -> (r: Self)
        ensures
            r == *self,
    {
        ClaimedRegion {
            rect: self.rect,
            kind: self.kind,
            owner: self.owner.clone(),
            priority: self.priority,
        }
    }
}

impl ClaimedRegion {
    /// A hard [`ClaimKind::Occlude`] claim at the given priority.
    pub fn occlude(rect: Rect, owner: &str, priority: i32) -> (r: Self)
        ensures
            r@ == (Claim { rect, kind: ClaimKind::Occlude, owner: owner@, priority }),
    {
        ClaimedRegion { rect, kind: ClaimKind::Occlude, owner: owner.to_owned(), priority }
    }

    /// A soft [`ClaimKind::Avoid`] claim at the given priority.
    pub fn avoid(rect: Rect, owner: &str, priority: i32) -> (r: Self)
        ensures
            r@ == (Claim { rect, kind: ClaimKind::Avoid, owner: owner@, priority }),
    {
        ClaimedRegion { rect, kind: ClaimKind::Avoid, owner: owner.to_owned(), priority }
    }
}

impl Claim {
    /// Content of priority `self_priority` honours this claim, unless it was made by
    /// `skip_owner`. Where `skip_owner` is `None`, the claims of every owner count.
    pub open spec fn respected(self, skip_owner: Option<Seq<char>>, self_priority: i32) -> bool {
        skip_owner != Some(self.owner) && self.priority >= self_priority
    }

    /// What honouring this claim does to an occupancy.
    pub open spec fn seeded(self, o: crate::geometry::Occupancy) -> crate::geometry::Occupancy {
        match self.kind {
            ClaimKind::Occlude => o.with_region(
                crate::geometry::RegionPriority::Highlight,
                self.rect,
            ),
            ClaimKind::Avoid => o.with_region(crate::geometry::RegionPriority::Avoid, self.rect),
        }
    }
}

/// An occupancy with the respected claims of a list reserved in order.
pub open spec fn seeded(
    o: crate::geometry::Occupancy,
    list: Seq<Claim>,
    skip_owner: Option<Seq<char>>,
    self_priority: i32,
) -> crate::geometry::Occupancy
    decreases list.len(),
{
    if list.len() == 0 {
        o
    } else {
        let before = seeded(o, list.drop_last(), skip_owner, self_priority);
        if list.last().respected(skip_owner, self_priority) {
            list.last().seeded(before)
        } else {
            before
        }
    }
}

/// Reserve in `registry` what the claims ask that content of priority `self_priority` has
/// to respect. A hard claim is reserved even where it meets one that came before it.
fn seed_respected(
    registry: &mut OccupiedRegionRegistry,
    regions: &[ClaimedRegion],
    skip_owner: Option<&str>,
    self_priority: i32,
)
    ensures
        final(registry)@.sound(),
        final(registry)@ == seeded(
            old(registry)@,
            claims(regions@),
            skip_name(skip_owner),
            self_priority,
        ),
        final(registry)@.frame == old(registry)@.frame,
        final(registry)@.regions.len() <= old(registry)@.regions.len() + regions.len(),
{
    proof {
        use_type_invariant(&*registry);
    }
    let skipped: Option<String> = match skip_owner {
        Some(name) => Some(name.to_owned()),
        None => None,
    };
    let ghost skip = skip_name(skip_owner);
    let ghost all = claims(regions@);
    let mut i: usize = 0;
    assert(all.take(0) =~= Seq::<Claim>::empty());
    while i < regions.len()
        invariant
            i <= regions.len(),
            all == claims(regions@),
            match (skipped, skip) {
                (Some(name), Some(owner)) => name@ == owner,
                (None, None) => true,
                _ => false,
            },
            registry@.sound(),
            registry@ == seeded(old(registry)@, all.take(i as int), skip, self_priority),
            registry@.frame == old(registry)@.frame,
            registry@.regions.len() <= old(registry)@.regions.len() + i,
        decreases regions.len() - i,
    {
        let region = &regions[i];
        proof {
            let next = all.take(i + 1);
            assert(next.drop_last() =~= all.take(i as int));
            assert(next.last() == region@);
        }
        let own = match &skipped {
            Some(name) => region.owner == *name,
            None => false,
        };
        if !own && region.priority >= self_priority {
            match region.kind {
                ClaimKind::Occlude => {
                    let _ = registry.force_reserve(RegionPriority::Highlight, region.rect);
                },
                ClaimKind::Avoid => {
                    let _ = registry.reserve_avoid(region.rect);
                },
            }
        }
        i = i + 1;
    }
    assert(all.take(i as int) =~= all);
}

/// The characters of the name that is skipped.
pub open spec fn skip_name(skip_owner: Option<&str>) -> Option<Seq<char>> {
    match skip_owner {
        Some(name) => Some(name@),
        None => None,
    }
}

/// Seed `registry` with the claimed regions that an element must respect, so its
/// placement steers around those areas.
///
/// A region is respected when it was not claimed by `skip_owner` and its
/// priority is `>= self_priority`: it belongs to content at least as
/// important as what this element is placing. Lower-priority claims are dropped
/// (not seeded), so the element places freely over them and, being downstream,
/// overdraws them ("higher priority wins").
///
/// For respected claims the kind maps to a placement priority:
/// [`ClaimKind::Occlude`] becomes a hard highlight (labels must not overlap it),
/// while [`ClaimKind::Avoid`] becomes a soft region (labels prefer not to overlap
/// it, but may when no clear alternative exists). Claims may overlap one another: each
/// of them is reserved.
pub fn seed_registry_from_regions(
    registry: &mut OccupiedRegionRegistry,
    regions: &[ClaimedRegion],
    skip_owner: &str,
    self_priority: i32,
)
    ensures
        final(registry)@.sound(),
        final(registry)@ == seeded(
            old(registry)@,
            claims(regions@),
            Some(skip_owner@),
            self_priority,
        ),
        final(registry)@.frame == old(registry)@.frame,
        final(registry)@.regions.len() <= old(registry)@.regions.len() + regions.len(),
{
    seed_respected(registry, regions, Some(skip_owner), self_priority);
}

/// Seed `registry` as [`seed_registry_from_regions`] does, with the claims of every owner.
pub fn seed_registry_from_every_owner(
    registry: &mut OccupiedRegionRegistry,
    regions: &[ClaimedRegion],
    self_priority: i32,
)
    ensures
        final(registry)@.sound(),
        final(registry)@ == seeded(old(registry)@, claims(regions@), None, self_priority),
        final(registry)@.frame == old(registry)@.frame,
        final(registry)@.regions.len() <= old(registry)@.regions.len() + regions.len(),
{
    seed_respected(registry, regions, None, self_priority);
}

/// The claimed-regions metadata of a buffer, as its two parallel arrays: `coords`
/// ([`COORDS_PER_REGION`] integers per region) and `owners` (one string per region). An
/// array that is not there is `None`, and so is an element that holds another type.
#[derive(Debug)]
pub struct ClaimMeta {
    pub coords: Option<Vec<Option<i32>>>,
    pub owners: Option<Vec<Option<String>>>,
}

/// The integer at a place of a metadata array; what is no integer counts as zero.
pub open spec fn int_at(values: Seq<Option<i32>>, i: int) -> i32 {
    match values[i] {
        Some(value) => value,
        None => 0,
    }
}

/// The string at a place of a metadata array; what is not there or is no string counts as
/// empty.
pub open spec fn string_at(strings: Option<Vec<Option<String>>>, i: int) -> Seq<char> {
    match strings {
        Some(list) => if 0 <= i < list@.len() {
            match list@[i] {
                Some(text) => text@,
                None => Seq::empty(),
            }
        } else {
            Seq::empty()
        },
        None => Seq::empty(),
    }
}

/// The integer at a place of a metadata array.
pub fn read_int(values: &Vec<Option<i32>>, i: usize) -> (r: i32)
    requires
        i < values.len(),
    ensures
        r == int_at(values@, i as int),
{
    match values[i] {
        Some(value) => value,
        None => 0,
    }
}

/// The string at a place of a metadata array.
pub fn read_string(strings: &Option<Vec<Option<String>>>, i: usize) -> (r: String)
    ensures
        r@ == string_at(*strings, i as int),
{
    match strings {
        Some(list) => if i < list.len() {
            match &list[i] {
                Some(text) => text.clone(),
                None => String::new(),
            }
        } else {
            String::new()
        },
        None => String::new(),
    }
}

impl ClaimMeta {
    /// The claims that the arrays describe; integers left over at the end are ignored.
    pub open spec fn decoded(self) -> Seq<Claim> {
        match self.coords {
            Some(coords) => Seq::new(
                (coords@.len() / 6) as nat,
                |k: int|
                    Claim {
                        rect: Rect::of(
                            int_at(coords@, 6 * k) as int,
                            int_at(coords@, 6 * k + 1) as int,
                            int_at(coords@, 6 * k + 2) as int,
                            int_at(coords@, 6 * k + 3) as int,
                        ),
                        kind: ClaimKind::of_code(int_at(coords@, 6 * k + 4)),
                        owner: string_at(self.owners, k),
                        priority: int_at(coords@, 6 * k + 5),
                    },
            ),
            None => Seq::empty(),
        }
    }

    /// The arrays hold the claims of a list, six integers and one string for each.
    pub open spec fn encodes(self, list: Seq<Claim>) -> bool {
        &&& self.coords matches Some(coords) && coords@ == Seq::new(
            6 * list.len(),
            |j: int| Some(list[j / 6].field(j % 6)),
        )
        &&& self.owners matches Some(owners) && owners@.len() == list.len() && forall|k: int|
            0 <= k < list.len() ==> (#[trigger] owners@[k] matches Some(owner) && owner@
                == list[k].owner)
    }
}

impl Claim {
    /// The integers that stand for a claim.
    pub open spec fn field(self, i: int) -> i32 {
        if i == 0 {
            self.rect.left
        } else if i == 1 {
            self.rect.top
        } else if i == 2 {
            crate::geometry::saturated(self.rect.right - self.rect.left)
        } else if i == 3 {
            crate::geometry::saturated(self.rect.bottom - self.rect.top)
        } else if i == 4 {
            self.kind.code()
        } else {
            self.priority
        }
    }
}

/// The claims that are on a buffer; none where it carries no claimed-regions metadata.
pub open spec fn claims_on(meta: Option<ClaimMeta>) -> Seq<Claim> {
    match meta {
        Some(meta) => meta.decoded(),
        None => Seq::empty(),
    }
}

/// The metadata arrays for a list of regions.
pub fn encode(regions: &[ClaimedRegion]) -> (r: ClaimMeta)
    ensures
        r.encodes(claims(regions@)),
{
    let mut coords: Vec<Option<i32>> = Vec::new();
    let mut owners: Vec<Option<String>> = Vec::new();
    let ghost list = claims(regions@);
    let mut i: usize = 0;
    while i < regions.len()
        invariant
            i <= regions.len(),
            list == claims(regions@),
            coords@ =~= Seq::new((6 * i) as nat, |j: int| Some(list[j / 6].field(j % 6))),
            owners@.len() == i,
            forall|k: int|
                0 <= k < i ==> (#[trigger] owners@[k] matches Some(owner) && owner@
                    == list[k].owner),
        decreases regions.len() - i,
    {
        let region = &regions[i];
        assert(list[i as int] == region@);
        coords.push(Some(region.rect.left));
        coords.push(Some(region.rect.top));
        coords.push(Some(region.rect.width()));
        coords.push(Some(region.rect.height()));
        coords.push(Some(region.kind.as_i32()));
        coords.push(Some(region.priority));
        owners.push(Some(region.owner.clone()));
        i = i + 1;
    }
    ClaimMeta { coords: Some(coords), owners: Some(owners) }
}

/// The regions that the metadata arrays describe.
pub fn decode(meta: &ClaimMeta) -> (r: Vec<ClaimedRegion>)
    ensures
        claims(r@) == meta.decoded(),
        forall|k: int| 0 <= k < r@.len() ==> (#[trigger] r@[k]).rect.measurable(),
{
    let mut regions: Vec<ClaimedRegion> = Vec::new();
    match &meta.coords {
        Some(coords) => {
            let count: usize = coords.len() / COORDS_PER_REGION;
            let mut k: usize = 0;
            while k < count
                invariant
                    k <= count,
                    count == coords.len() / 6,
                    coords.len() == coords@.len(),
                    meta.coords == Some(*coords),
                    claims(regions@) =~= meta.decoded().take(k as int),
                    forall|j: int|
                        0 <= j < regions@.len() ==> (#[trigger] regions@[j]).rect.measurable(),
                decreases count - k,
            {
                let at: usize = COORDS_PER_REGION * k;
                let region = ClaimedRegion {
                    rect: Rect::from_xywh(
                        read_int(coords, at),
                        read_int(coords, at + 1),
                        read_int(coords, at + 2),
                        read_int(coords, at + 3),
                    ),
                    kind: ClaimKind::from_i32(read_int(coords, at + 4)),
                    owner: read_string(&meta.owners, k),
                    priority: read_int(coords, at + 5),
                };
                assert(region@ == meta.decoded()[k as int]);
                let ghost before = regions@;
                regions.push(region);
                assert(claims(regions@) =~= claims(before).push(region@));
                k = k + 1;
            }
            assert(meta.decoded().take(k as int) =~= meta.decoded());
        },
        None => {
            assert(claims(regions@) =~= meta.decoded());
        },
    }
    regions
}

/// Read every claimed region that a buffer carries.
pub fn claimed_regions(meta: &Option<ClaimMeta>) -> (r: Vec<ClaimedRegion>)
    ensures
        claims(r@) == claims_on(*meta),
        forall|k: int| 0 <= k < r@.len() ==> (#[trigger] r@[k]).rect.measurable(),
{
    match meta {
        Some(meta) => decode(meta),
        None => {
            let none: Vec<ClaimedRegion> = Vec::new();
            assert(claims(none@) =~= Seq::<Claim>::empty());
            none
        },
    }
}

/// Append claimed regions to those a buffer carries.
///
/// Producers call this after rendering so downstream elements can avoid the
/// areas they used.
pub fn add_claimed_regions(meta: &mut Option<ClaimMeta>, regions: &[ClaimedRegion])
    ensures
        regions@.len() == 0 ==> *final(meta) == *old(meta),
        regions@.len() > 0 ==> (*final(meta) matches Some(written) && written.encodes(
            claims_on(*old(meta)) + claims(regions@),
        )),
        (forall|k: int| 0 <= k < regions@.len() ==> (#[trigger] regions@[k]).rect.measurable())
            ==> claims_on(*final(meta)) == claims_on(*old(meta)) + claims(regions@),
{
    if regions.len() == 0 {
        assert(claims_on(*meta) + claims(regions@) =~= claims_on(*meta));
        return;
    }
    let mut all: Vec<ClaimedRegion> = claimed_regions(meta);
    let ghost before = all@;
    let mut i: usize = 0;
    while i < regions.len()
        invariant
            i <= regions.len(),
            all@ =~= before + regions@.take(i as int),
        decreases regions.len() - i,
    {
        all.push(regions[i].clone());
        i = i + 1;
    }
    assert(all@ =~= before + regions@);
    assert(claims(all@) =~= claims_on(*meta) + claims(regions@));
    let written = encode(all.as_slice());
    proof {
        if forall|k: int| 0 <= k < regions@.len() ==> (#[trigger] regions@[k]).rect.measurable() {
            assert forall|k: int| 0 <= k < all@.len() implies (
            #[trigger] claims(all@)[k]).rect.measurable() by {
                if k < before.len() {
                    assert(all@[k] == before[k]);
                } else {
                    assert(all@[k] == regions@[k - before.len()]);
                }
            }
            law_claims_round_trip(written, claims(all@));
        }
    }
    *meta = Some(written);
}

/// What was written is read back: kind, owner and priority of every region, and its
/// rectangle where the distances between opposite edges fit in an `i32`.
pub proof fn law_claims_round_trip(meta: ClaimMeta, list: Seq<Claim>)
    requires
        meta.encodes(list),
        forall|k: int| 0 <= k < list.len() ==> (#[trigger] list[k]).rect.measurable(),
    ensures
        meta.decoded() == list,
{
    let coords = meta.coords->0@;
    assert(coords.len() == 6 * list.len());
    assert(meta.decoded().len() == list.len());
    assert forall|k: int| 0 <= k < list.len() implies #[trigger] meta.decoded()[k] == list[k] by {
        assert(list[k].rect.measurable());
        assert(coords[6 * k] == Some(list[k].field(0)));
        assert(coords[6 * k + 1] == Some(list[k].field(1)));
        assert(coords[6 * k + 2] == Some(list[k].field(2)));
        assert(coords[6 * k + 3] == Some(list[k].field(3)));
        assert(coords[6 * k + 4] == Some(list[k].field(4)));
        assert(coords[6 * k + 5] == Some(list[k].field(5)));
        let owners = meta.owners->0@;
        assert(owners[k] matches Some(owner) && owner@ == list[k].owner);
        assert(meta.decoded()[k].owner == list[k].owner);
        assert(meta.decoded()[k].rect == list[k].rect);
    }
    assert(meta.decoded() =~= list);
}

/// The claim kind a drawn command warrants.
pub open spec fn claim_kind_of(command: DrawCommand) -> ClaimKind {
    match command {
        DrawCommand::Rectangle { filled, .. } => if filled {
            ClaimKind::Occlude
        } else {
            ClaimKind::Avoid
        },
        _ => ClaimKind::Occlude,
    }
}

/// The claims of a list of drawn commands: one for each command with solid content, in
/// order. `widths` holds the measured width of each command's text.
pub open spec fn claims_of_commands(
    commands: Seq<DrawCommand>,
    widths: Seq<i32>,
    owner: Seq<char>,
    priority: i32,
) -> Seq<Claim>
    decreases commands.len(),
{
    if commands.len() == 0 {
        Seq::empty()
    } else {
        let n = commands.len() - 1;
        let before = claims_of_commands(commands.drop_last(), widths, owner, priority);
        match commands[n].extent(widths[n] as int) {
            Some(rect) => before.push(
                Claim { rect, kind: claim_kind_of(commands[n]), owner, priority },
            ),
            None => before,
        }
    }
}

/// The claim kind a drawn command warrants. An outline-only box is mostly
/// transparent inside, so it is a soft [`ClaimKind::Avoid`]; everything else
/// solid (a filled box, a text label, a keypoint marker) is a hard
/// [`ClaimKind::Occlude`] that downstream content must not draw over.
pub fn command_claim_kind(command: &DrawCommand) -> (r: ClaimKind)
    ensures
        r == claim_kind_of(*command),
{
    match command {
        DrawCommand::Rectangle { filled, .. } => if *filled {
            ClaimKind::Occlude
        } else {
            ClaimKind::Avoid
        },
        _ => ClaimKind::Occlude,
    }
}

/// Publish the regions an element rendered (derived from its draw commands) as
/// claims, so downstream elements avoid occluding them. Thin strokes (skeleton
/// and leader lines) are not claimed; see [`content_bounds`]. The claim kind is
/// derived per command by [`command_claim_kind`]; all claims carry the element's
/// `priority`. `widths` holds the measured width of each command's text.
pub fn claim_commands(
    meta: &mut Option<ClaimMeta>,
    commands: &[DrawCommand],
    widths: &[i32],
    owner: &str,
    priority: i32,
)
    requires
        widths@.len() == commands@.len(),
        forall|i: int|
            0 <= i < commands@.len() ==> (#[trigger] commands@[i]).text_in_range(widths@[i] as int),
    ensures
        claims_of_commands(commands@, widths@, owner@, priority).len() == 0 ==> *final(meta)
            == *old(meta),
        claims_on(*final(meta)) == claims_on(*old(meta)) + claims_of_commands(
            commands@,
            widths@,
            owner@,
            priority,
        ),
{
    let mut regions: Vec<ClaimedRegion> = Vec::new();
    let mut i: usize = 0;
    assert(commands@.take(0) =~= Seq::<DrawCommand>::empty());
    assert(claims(regions@) =~= Seq::<Claim>::empty());
    while i < commands.len()
        invariant
            i <= commands.len(),
            widths@.len() == commands@.len(),
            forall|j: int|
                0 <= j < commands@.len() ==> (#[trigger] commands@[j]).text_in_range(
                    widths@[j] as int,
                ),
            claims(regions@) == claims_of_commands(
                commands@.take(i as int),
                widths@,
                owner@,
                priority,
            ),
            forall|k: int|
                0 <= k < regions@.len() ==> (#[trigger] regions@[k]).rect.measurable(),
        decreases commands.len() - i,
    {
        let command = &commands[i];
        proof {
            let next = commands@.take(i + 1);
            assert(next.drop_last() =~= commands@.take(i as int));
            assert(next[i as int] == command);
        }
        let ghost before = regions@;
        match content_bounds(command, widths[i]) {
            Some(rect) => {
                let region = match command_claim_kind(command) {
                    ClaimKind::Occlude => ClaimedRegion::occlude(rect, owner, priority),
                    ClaimKind::Avoid => ClaimedRegion::avoid(rect, owner, priority),
                };
                regions.push(region);
                assert(claims(regions@) =~= claims(before).push(region@));
            },
            None => {},
        }
        i = i + 1;
    }
    assert(commands@.take(i as int) =~= commands@);
    add_claimed_regions(meta, regions.as_slice());
}

/// Seed `registry` with the respected claims of a buffer.
pub fn seed_registry_from_claims(
    registry: &mut OccupiedRegionRegistry,
    meta: &Option<ClaimMeta>,
    skip_owner: &str,
    self_priority: i32,
)
    ensures
        final(registry)@.sound(),
        final(registry)@ == seeded(
            old(registry)@,
            claims_on(*meta),
            Some(skip_owner@),
            self_priority,
        ),
        final(registry)@.frame == old(registry)@.frame,
        final(registry)@.regions.len() <= old(registry)@.regions.len() + claims_on(*meta).len(),
{
    let regions = claimed_regions(meta);
    assert(claims(regions@).len() == regions@.len());
    seed_registry_from_regions(registry, regions.as_slice(), skip_owner, self_priority);
}

/// The claims that an element respects decide alone: leaving out claims of a lower
/// priority, and the element's own, changes nothing.
pub proof fn law_only_respected_claims_count(
    o: crate::geometry::Occupancy,
    list: Seq<Claim>,
    skip_owner: Option<Seq<char>>,
    self_priority: i32,
)
    ensures
        seeded(o, list, skip_owner, self_priority) == seeded(
            o,
            list.filter(|claim: Claim| claim.respected(skip_owner, self_priority)),
            skip_owner,
            self_priority,
        ),
    decreases list.len(),
{
    let keep = |claim: Claim| claim.respected(skip_owner, self_priority);
    reveal(Seq::filter);
    if list.len() > 0 {
        law_only_respected_claims_count(o, list.drop_last(), skip_owner, self_priority);
        let rest = list.drop_last().filter(keep);
        if keep(list.last()) {
            assert(rest.push(list.last()).drop_last() =~= rest);
        }
    }
}

/// The position shares no pixel of the frame with a hard claim that has to be respected.
pub open spec fn misses_claims(
    frame: Rect,
    list: Seq<Claim>,
    skip_owner: Option<Seq<char>>,
    self_priority: i32,
    position: Rect,
) -> bool {
    forall|k: int|
        0 <= k < list.len() && (#[trigger] list[k]).kind == ClaimKind::Occlude
            && list[k].respected(skip_owner, self_priority) ==> crate::placement::misses(
            frame,
            position,
            list[k].rect,
        )
}

/// Seeding leaves just those positions clear that miss every hard claim that has to be
/// respected, also where such claims overlap one another. Soft claims leave every position
/// clear.
pub proof fn law_clear_positions_miss_respected_claims(
    o: crate::geometry::Occupancy,
    list: Seq<Claim>,
    skip_owner: Option<Seq<char>>,
    self_priority: i32,
    position: Rect,
)
    requires
        o.sound(),
    ensures
        seeded(o, list, skip_owner, self_priority).sound(),
        seeded(o, list, skip_owner, self_priority).frame == o.frame,
        crate::placement::clear(seeded(o, list, skip_owner, self_priority), position) == (
        crate::placement::clear(o, position) && misses_claims(
            o.frame,
            list,
            skip_owner,
            self_priority,
            position,
        )),
    decreases list.len(),
{
    if list.len() > 0 {
        let rest = list.drop_last();
        let last = list.len() - 1;
        let before = seeded(o, rest, skip_owner, self_priority);
        law_clear_positions_miss_respected_claims(o, rest, skip_owner, self_priority, position);
        let priority = match list[last].kind {
            ClaimKind::Occlude => crate::geometry::RegionPriority::Highlight,
            ClaimKind::Avoid => crate::geometry::RegionPriority::Avoid,
        };
        crate::placement::lemma_clear_with_region(before, priority, list[last].rect, position);
        assert(forall|k: int| 0 <= k < last ==> rest[k] == list[k]);
        if misses_claims(o.frame, rest, skip_owner, self_priority, position) {
            assert forall|k: int|
                0 <= k < last && (#[trigger] list[k]).kind == ClaimKind::Occlude
                    && list[k].respected(
                    skip_owner,
                    self_priority,
                ) implies crate::placement::misses(o.frame, position, list[k].rect) by {
                assert(rest[k] == list[k]);
            }
        }
    }
}

/// A respected hard claim that is visible is taken, whatever other claims it meets: no label
/// and no highlight can be reserved across it.
pub proof fn law_seeded_claims_are_occupied(
    o: crate::geometry::Occupancy,
    list: Seq<Claim>,
    k: int,
    skip_owner: Option<Seq<char>>,
    self_priority: i32,
)
    requires
        o.sound(),
        0 <= k < list.len(),
        list[k].respected(skip_owner, self_priority),
        list[k].kind == ClaimKind::Occlude,
        o.clip(list[k].rect) is Some,
    ensures
        seeded(o, list, skip_owner, self_priority).taken(
            crate::geometry::RegionPriority::Label,
            list[k].rect,
        ),
        seeded(o, list, skip_owner, self_priority).taken(
            crate::geometry::RegionPriority::Highlight,
            list[k].rect,
        ),
    decreases list.len(),
{
    let highlight = crate::geometry::RegionPriority::Highlight;
    let before = seeded(o, list.drop_last(), skip_owner, self_priority);
    let after = seeded(o, list, skip_owner, self_priority);
    lemma_seeded_keeps(o, list.drop_last(), skip_owner, self_priority);
    let clipped = o.clip(list[k].rect)->0;
    let i = if k < list.len() - 1 {
        law_seeded_claims_are_occupied(o, list.drop_last(), k, skip_owner, self_priority);
        choose|i: int|
            0 <= i < before.regions.len() && (#[trigger] before.regions[i]).priority.rank()
                <= highlight.rank() && before.regions[i].rect.meets(clipped)
    } else {
        before.regions.len() as int
    };
    assert(after.regions[i].priority == highlight);
    assert(after.regions[i].rect.meets(clipped));
}

/// Seeding keeps the frame and the regions that were there.
pub(crate) proof fn lemma_seeded_keeps(
    o: crate::geometry::Occupancy,
    list: Seq<Claim>,
    skip_owner: Option<Seq<char>>,
    self_priority: i32,
)
    ensures
        seeded(o, list, skip_owner, self_priority).frame == o.frame,
        o.sound() ==> seeded(o, list, skip_owner, self_priority).sound(),
        seeded(o, list, skip_owner, self_priority).regions.len() >= o.regions.len(),
        forall|i: int|
            0 <= i < o.regions.len() ==> #[trigger] seeded(
                o,
                list,
                skip_owner,
                self_priority,
            ).regions[i] == o.regions[i],
    decreases list.len(),
{
    if list.len() > 0 {
        lemma_seeded_keeps(o, list.drop_last(), skip_owner, self_priority);
    }
}

/// The claims of a list in another coordinate space: those whose rectangle has an image
/// there, in order. `clipped` holds what a matrix makes of each rectangle.
pub open spec fn claims_mapped(
    list: Seq<Claim>,
    map: crate::meta_transform::RectMap,
    clipped: Seq<Option<Rect>>,
) -> Seq<Claim>
    decreases list.len(),
{
    if list.len() == 0 {
        Seq::empty()
    } else {
        let n = list.len() - 1;
        let before = claims_mapped(list.drop_last(), map, clipped);
        match map.image(list[n].rect, clipped[n]) {
            Some(rect) => before.push(Claim { rect, ..list[n] }),
            None => before,
        }
    }
}

/// The claimed-regions metadata in another coordinate space. A region that fell entirely
/// out of the frame is dropped. `clipped` holds what the matrix of an affine map makes of
/// each region's rectangle.
pub fn transform_claims(
    meta: &ClaimMeta,
    map: crate::meta_transform::RectMap,
    clipped: &[Option<Rect>],
) -> (r: ClaimMeta)
    requires
        clipped@.len() >= meta.decoded().len(),
    ensures
        r.encodes(claims_mapped(meta.decoded(), map, clipped@)),
{
    let regions = decode(meta);
    let ghost list = meta.decoded();
    let mut mapped: Vec<ClaimedRegion> = Vec::new();
    let mut i: usize = 0;
    assert(claims(regions@).len() == regions@.len());
    assert(list.take(0) =~= Seq::<Claim>::empty());
    assert(claims(mapped@) =~= Seq::<Claim>::empty());
    while i < regions.len()
        invariant
            i <= regions.len(),
            list == claims(regions@),
            clipped@.len() >= regions@.len(),
            claims(mapped@) == claims_mapped(list.take(i as int), map, clipped@),
        decreases regions.len() - i,
    {
        let region = &regions[i];
        proof {
            let next = list.take(i + 1);
            assert(next.drop_last() =~= list.take(i as int));
            assert(next[i as int] == region@);
        }
        let ghost before = mapped@;
        match map.apply(region.rect, clipped[i]) {
            Some(rect) => {
                let moved = ClaimedRegion {
                    rect,
                    kind: region.kind,
                    owner: region.owner.clone(),
                    priority: region.priority,
                };
                mapped.push(moved);
                assert(claims(mapped@) =~= claims(before).push(moved@));
            },
            None => {},
        }
        i = i + 1;
    }
    assert(list.take(i as int) =~= list);
    encode(mapped.as_slice())
}

/// A plain copy carries the claims verbatim.
pub proof fn law_copy_keeps_claims(list: Seq<Claim>, clipped: Seq<Option<Rect>>)
    ensures
        claims_mapped(list, crate::meta_transform::RectMap::Identity, clipped) == list,
    decreases list.len(),
{
    if list.len() > 0 {
        law_copy_keeps_claims(list.drop_last(), clipped);
        assert(list.drop_last().push(list.last()) =~= list);
    }
}

/// A scale keeps every claim, and of each its kind, owner and priority.
pub proof fn law_scale_keeps_every_claim(
    list: Seq<Claim>,
    ratio: crate::meta_transform::ScaleRatio,
    clipped: Seq<Option<Rect>>,
)
    ensures
        claims_mapped(list, crate::meta_transform::RectMap::Ratio(ratio), clipped) == Seq::new(
            list.len(),
            |i: int| Claim { rect: ratio.scaled_rect(list[i].rect), ..list[i] },
        ),
    decreases list.len(),
{
    let expected = Seq::new(
        list.len(),
        |i: int| Claim { rect: ratio.scaled_rect(list[i].rect), ..list[i] },
    );
    if list.len() > 0 {
        law_scale_keeps_every_claim(list.drop_last(), ratio, clipped);
        assert(claims_mapped(list, crate::meta_transform::RectMap::Ratio(ratio), clipped)
            =~= expected);
    } else {
        assert(expected =~= Seq::<Claim>::empty());
    }
}

/// `places` goes through a list of `n` items from front to back, visiting none twice.
pub open spec fn walks(places: Seq<int>, n: int) -> bool {
    &&& forall|j: int| 0 <= j < places.len() ==> 0 <= #[trigger] places[j] < n
    &&& forall|i: int, j: int|
        0 <= i < j < places.len() ==> #[trigger] places[i] < #[trigger] places[j]
}

/// A walk goes on to the end of a longer list.
pub proof fn lemma_walk_goes_on(places: Seq<int>, n: int)
    requires
        walks(places, n),
        0 <= n,
    ensures
        walks(places, n + 1),
        walks(places.push(n), n + 1),
        places.push(n).contains(n),
        forall|k: int| #[trigger] places.contains(k) ==> places.push(n).contains(k) && 0 <= k < n,
{
    let longer = places.push(n);
    assert(longer[places.len() as int] == n);
    assert forall|k: int| #[trigger] places.contains(k) implies longer.contains(k) by {
        let i = choose|i: int| 0 <= i < places.len() && places[i] == k;
        assert(longer[i] == k);
    }
}

/// Every drawn command with an extent is claimed, and nothing else, in the order of drawing;
/// `places` tells which. A claim covers the command's extent and carries the given owner and
/// priority. It is soft for a box that is not filled, else hard.
pub proof fn law_claims_cover_what_was_drawn(
    commands: Seq<DrawCommand>,
    widths: Seq<i32>,
    owner: Seq<char>,
    priority: i32,
) -> (places: Seq<int>)
    ensures
        walks(places, commands.len() as int),
        places.len() == claims_of_commands(commands, widths, owner, priority).len(),
        forall|k: int|
            0 <= k < commands.len() ==> places.contains(k) == ((#[trigger] commands[k]).extent(
                widths[k] as int,
            ) is Some),
        forall|j: int|
            #![trigger places[j]]
            0 <= j < places.len() ==> {
                let claim = claims_of_commands(commands, widths, owner, priority)[j];
                let command = commands[places[j]];
                &&& command.extent(widths[places[j]] as int) == Some(claim.rect)
                &&& claim.owner == owner
                &&& claim.priority == priority
                &&& (claim.kind == ClaimKind::Avoid) == (command matches DrawCommand::Rectangle {
                    filled,
                    ..
                } && !filled)
            },
    decreases commands.len(),
{
    if commands.len() == 0 {
        Seq::empty()
    } else {
        let rest = commands.drop_last();
        let n = rest.len() as int;
        let before = law_claims_cover_what_was_drawn(rest, widths, owner, priority);
        assert(forall|k: int| 0 <= k < n ==> rest[k] == commands[k]);
        lemma_walk_goes_on(before, n);
        let places = if commands[n].extent(widths[n] as int) is Some {
            before.push(n)
        } else {
            before
        };
        assert forall|k: int| 0 <= k < commands.len() implies places.contains(k) == ((
        #[trigger] commands[k]).extent(widths[k] as int) is Some) by {
            if k < n {
                assert(rest[k] == commands[k]);
                if places.contains(k) {
                    let i = choose|i: int| 0 <= i < places.len() && places[i] == k;
                    assert(before[i] == k);
                }
            }
        }
        assert forall|j: int| #![trigger places[j]] 0 <= j < places.len() implies {
            let claim = claims_of_commands(commands, widths, owner, priority)[j];
            let command = commands[places[j]];
            &&& command.extent(widths[places[j]] as int) == Some(claim.rect)
            &&& claim.owner == owner
            &&& claim.priority == priority
            &&& (claim.kind == ClaimKind::Avoid) == (command matches DrawCommand::Rectangle {
                filled,
                ..
            } && !filled)
        } by {
            if j < before.len() {
                assert(places[j] == before[j]);
                assert(rest[before[j]] == commands[before[j]]);
            }
        }
        places
    }
}

/// One more claim is reserved, as far as it lies in the frame, unless it was made by the
/// owner that is skipped or at a lower priority: a hard claim as a highlight, a soft one as a
/// soft region. No claim changes what was reserved before.
pub proof fn law_claims_as_important_are_reserved(
    o: crate::geometry::Occupancy,
    list: Seq<Claim>,
    claim: Claim,
    skip_owner: Option<Seq<char>>,
    self_priority: i32,
)
    ensures
        seeded(o, Seq::empty(), skip_owner, self_priority) == o,
        ({
            let before = seeded(o, list, skip_owner, self_priority);
            let after = seeded(o, list.push(claim), skip_owner, self_priority);
            let own = skip_owner matches Some(name) && name == claim.owner;
            &&& after.frame == o.frame
            &&& own || claim.priority < self_priority || claim.rect.common(o.frame) is None
                ==> after == before
            &&& !own && claim.priority >= self_priority && claim.rect.common(o.frame) is Some
                ==> after.regions == before.regions.push(
                crate::geometry::OccupiedRegion {
                    priority: if claim.kind == ClaimKind::Occlude {
                        crate::geometry::RegionPriority::Highlight
                    } else {
                        crate::geometry::RegionPriority::Avoid
                    },
                    rect: claim.rect.common(o.frame)->0,
                },
            )
        }),
{
    assert(list.push(claim).drop_last() =~= list);
    lemma_seeded_keeps(o, list, skip_owner, self_priority);
    lemma_seeded_keeps(o, list.push(claim), skip_owner, self_priority);
}

/// A position misses the claims exactly where none of its pixels in the frame lies in a hard
/// claim that another owner made at the given priority or higher.
pub proof fn law_missed_claims_share_no_pixel(
    frame: Rect,
    list: Seq<Claim>,
    skip_owner: Option<Seq<char>>,
    self_priority: i32,
    position: Rect,
)
    ensures
        misses_claims(frame, list, skip_owner, self_priority, position) == forall|
            k: int,
            x: int,
            y: int,
        |
            #![trigger list[k].rect.covers(x, y)]
            0 <= k < list.len() && list[k].kind == ClaimKind::Occlude && !(skip_owner matches Some(
                name,
            ) && name == list[k].owner) && list[k].priority >= self_priority && frame.left <= x
                < frame.right && frame.top <= y < frame.bottom && position.left <= x
                < position.right && position.top <= y < position.bottom
                ==> !list[k].rect.covers(x, y),
{
    assert forall|k: int| 0 <= k < list.len() implies crate::placement::misses(
        frame,
        position,
        (#[trigger] list[k]).rect,
    ) == forall|x: int, y: int|
        #![trigger list[k].rect.covers(x, y)]
        frame.left <= x < frame.right && frame.top <= y < frame.bottom && position.left <= x
            < position.right && position.top <= y < position.bottom ==> !list[k].rect.covers(
            x,
            y,
        ) by {
        crate::placement::law_missing_means_no_common_pixel(frame, position, list[k].rect);
    }
}

/// Six integers stand for a claim, one claim after the other: left and top, width and height,
/// nought for a hard and one for a soft claim, and the priority. The owners stand in the same
/// order.
pub proof fn law_claims_are_written_in_sixes(meta: ClaimMeta, list: Seq<Claim>, k: int)
    requires
        meta.encodes(list),
        0 <= k < list.len(),
    ensures
        meta.coords matches Some(coords) && {
            &&& coords@.len() == 6 * list.len()
            &&& coords@[6 * k] == Some(list[k].rect.left)
            &&& coords@[6 * k + 1] == Some(list[k].rect.top)
            &&& list[k].rect.measurable() ==> {
                &&& coords@[6 * k + 2] matches Some(width) && width == list[k].rect.right
                    - list[k].rect.left
                &&& coords@[6 * k + 3] matches Some(height) && height == list[k].rect.bottom
                    - list[k].rect.top
            }
            &&& coords@[6 * k + 4] == Some(
                if list[k].kind == ClaimKind::Avoid {
                    1i32
                } else {
                    0i32
                },
            )
            &&& coords@[6 * k + 5] == Some(list[k].priority)
        },
        meta.owners matches Some(owners) && owners@.len() == list.len() && (owners@[k] matches Some(
            owner,
        ) && owner@ == list[k].owner),
{
    let coords = meta.coords->0@;
    assert(coords[6 * k] == Some(list[k].field(0)));
    assert(coords[6 * k + 1] == Some(list[k].field(1)));
    assert(coords[6 * k + 2] == Some(list[k].field(2)));
    assert(coords[6 * k + 3] == Some(list[k].field(3)));
    assert(coords[6 * k + 4] == Some(list[k].field(4)));
    assert(coords[6 * k + 5] == Some(list[k].field(5)));
    let owners = meta.owners->0@;
    assert(owners[k] matches Some(owner) && owner@ == list[k].owner);
}

/// A claim is read from its six integers, of which one that is missing counts as nought, and
/// from the owner that stands in its place. Any kind but one is a hard claim.
pub proof fn law_claims_are_read_from_sixes(meta: ClaimMeta, k: int)
    requires
        meta.coords is Some,
        0 <= k,
        6 * k + 6 <= meta.coords->0@.len(),
    ensures
        ({
            let coords = meta.coords->0@;
            let claim = meta.decoded()[k];
            &&& meta.decoded().len() == coords.len() / 6
            &&& claim.rect.left == coords[6 * k].unwrap_or(0)
            &&& claim.rect.top == coords[6 * k + 1].unwrap_or(0)
            &&& claim.rect.right == crate::geometry::saturated(
                claim.rect.left + coords[6 * k + 2].unwrap_or(0),
            )
            &&& claim.rect.bottom == crate::geometry::saturated(
                claim.rect.top + coords[6 * k + 3].unwrap_or(0),
            )
            &&& (claim.kind == ClaimKind::Avoid) == (coords[6 * k + 4] == Some(1i32))
            &&& claim.priority == coords[6 * k + 5].unwrap_or(0)
            &&& meta.owners is None ==> claim.owner.len() == 0
            &&& meta.owners matches Some(owners) ==> {
                &&& k >= owners@.len() ==> claim.owner.len() == 0
                &&& k < owners@.len() ==> match owners@[k] {
                    Some(owner) => claim.owner == owner@,
                    None => claim.owner.len() == 0,
                }
            }
        }),
{
}

/// A matrix keeps just the claims whose rectangle it leaves in the frame, in their order;
/// `places` tells which. Each has the new rectangle, and its kind, owner and priority as
/// before.
pub proof fn law_claims_follow_a_matrix(list: Seq<Claim>, clipped: Seq<Option<Rect>>) -> (places:
    Seq<int>)
    ensures
        walks(places, list.len() as int),
        places.len() == claims_mapped(
            list,
            crate::meta_transform::RectMap::Matrix,
            clipped,
        ).len(),
        forall|k: int|
            0 <= k < list.len() ==> places.contains(k) == (#[trigger] clipped[k] is Some),
        forall|j: int|
            #![trigger places[j]]
            0 <= j < places.len() ==> {
                let claim = claims_mapped(
                    list,
                    crate::meta_transform::RectMap::Matrix,
                    clipped,
                )[j];
                &&& clipped[places[j]] == Some(claim.rect)
                &&& claim.kind == list[places[j]].kind
                &&& claim.owner == list[places[j]].owner
                &&& claim.priority == list[places[j]].priority
            },
    decreases list.len(),
{
    let matrix = crate::meta_transform::RectMap::Matrix;
    if list.len() == 0 {
        Seq::empty()
    } else {
        let rest = list.drop_last();
        let n = rest.len() as int;
        let before = law_claims_follow_a_matrix(rest, clipped);
        assert(forall|k: int| 0 <= k < n ==> rest[k] == list[k]);
        lemma_walk_goes_on(before, n);
        let places = if clipped[n] is Some {
            before.push(n)
        } else {
            before
        };
        assert forall|k: int| 0 <= k < list.len() implies places.contains(k) == (
        #[trigger] clipped[k] is Some) by {
            if k < n && places.contains(k) {
                let i = choose|i: int| 0 <= i < places.len() && places[i] == k;
                assert(before[i] == k);
            }
        }
        assert forall|j: int| #![trigger places[j]] 0 <= j < places.len() implies {
            let claim = claims_mapped(list, matrix, clipped)[j];
            &&& clipped[places[j]] == Some(claim.rect)
            &&& claim.kind == list[places[j]].kind
            &&& claim.owner == list[places[j]].owner
            &&& claim.priority == list[places[j]].priority
        } by {
            if j < before.len() {
                assert(places[j] == before[j]);
                assert(rest[before[j]] == list[before[j]]);
            }
        }
        places
    }
}

} // verus!
