//! The segmentation overlay: masks become colored layers.

use vstd::prelude::*;

use crate::coordination::{add_claimed_regions, ClaimMeta, ClaimedRegion};
use crate::geometry::Rect;
use crate::text::split_names;

verus! {

/// Owner tag this element uses when claiming shared regions.
pub const OVERLAY_OWNER: &'static str = "segoverlay";

pub const DEFAULT_HINT_MAXIMUM_SEGMENT_TYPE: u32 = 10;

/// The opacity of a mask.
pub const MASK_ALPHA: u8 = 0x80;

/// How many values a mask's pixel can have.
pub const MASK_VALUES: usize = 256;

/// What to draw, and how.
#[derive(Debug)]
pub struct Settings {
    pub render_enabled: bool,
    pub hint_maximum_segment_type: u32,
    /// The names of the classes to draw, separated by semicolons; without it, all are drawn.
    pub selected_types: Option<String>,
    /// Cross-element priority (see [`crate::coordination`]).
    pub priority: i32,
    /// Publish drawn content as claimed regions for downstream coordination.
    pub publish_claimed_regions: bool,
}

impl Default for Settings {
    fn default() -> (r: Self)
        ensures
            !r.render_enabled,
            r.hint_maximum_segment_type == 10,
            r.selected_types is None,
            r.priority == crate::coordination::DEFAULT_PRIORITY,
            r.publish_claimed_regions,
    {
        Settings {
            render_enabled: false,
            hint_maximum_segment_type: DEFAULT_HINT_MAXIMUM_SEGMENT_TYPE,
            selected_types: None,
            priority: crate::coordination::DEFAULT_PRIORITY,
            publish_claimed_regions: true,
        }
    }
}

/// Per-segment colors indexed directly by the mask's value.
#[derive(Debug)]
pub struct SegmentColorTable {
    pub colors: [Option<u32>; 256],
}

impl View for SegmentColorTable {
    type V = Seq<Option<u32>>;

    open spec fn view(&self) -> Seq<Option<u32>> {
        self.colors@
    }
}

/// A table without colors.
pub open spec fn no_colors() -> Seq<Option<u32>> {
    Seq::new(256, |i: int| None::<u32>)
}

impl Default for SegmentColorTable {
    fn default() -> (r: Self)
        ensures
            r@ == no_colors(),
    {
        let table = SegmentColorTable { colors: [None; 256] };
        assert(table@ =~= no_colors());
        table
    }
}

impl SegmentColorTable {
    pub fn clear(&mut self)
        ensures
            final(self)@ == no_colors(),
    {
        self.colors = [None; 256];
        assert(self@ =~= no_colors());
    }

    /// Whether no segment has a color yet.
    pub fn is_empty(&self) -> (r: bool)
        ensures
            r == (self@ == no_colors()),
    {
        let mut i: usize = 0;
        while i < MASK_VALUES
            invariant
                i <= 256,
                forall|k: int| 0 <= k < i ==> self@[k] is None,
            decreases 256 - i,
        {
            if self.colors[i].is_some() {
                assert(no_colors()[i as int] is None);
                return false;
            }
            i = i + 1;
        }
        assert(self@ =~= no_colors());
        true
    }
}

/// A class filter, with what it was made from.
#[derive(Debug)]
pub struct MaskFilterCache {
    pub selected_types: Option<Vec<String>>,
    pub classes: Vec<String>,
    pub filter: Vec<bool>,
}

/// Which mask values pass: those whose class is selected.
pub open spec fn filter_of(classes: Seq<Seq<char>>, selected: Seq<Seq<char>>) -> Seq<bool> {
    Seq::new(classes.len(), |i: int| selected.contains(classes[i]))
}

impl MaskFilterCache {
    /// The filter is the one that belongs to the classes and the selection.
    pub open spec fn sound(self) -> bool {
        self.selected_types matches Some(selected) && self.filter@ == filter_of(
            crate::text::views(self.classes@),
            crate::text::views(selected@),
        )
    }
}

/// What the element keeps from frame to frame. `C` is the composition that it draws.
#[derive(Debug)]
pub struct State<C> {
    pub segment_colors: SegmentColorTable,
    pub next_color_index: u64,
    pub composition: Option<C>,
    pub attach_composition: bool,
    pub selected_types_source: Option<String>,
    pub selected_type_names: Option<Vec<String>>,
    pub mask_filter_cache: Option<MaskFilterCache>,
    /// The alpha map of a frame, kept for its allocation.
    pub alpha_scratch: Vec<u8>,
    /// The half-blurred alpha map of a frame, kept for its allocation.
    pub blur_scratch: Vec<u8>,
}

impl<C> Default for State<C> {
    fn default() -> (r: Self)
        ensures
            r.segment_colors@ == no_colors(),
            r.next_color_index == 0,
            r.composition is None,
            !r.attach_composition,
            r.selected_types_source is None,
            r.selected_type_names is None,
            r.mask_filter_cache is None,
            r.alpha_scratch@.len() == 0,
            r.blur_scratch@.len() == 0,
    {
        State {
            segment_colors: SegmentColorTable::default(),
            next_color_index: 0,
            composition: None,
            attach_composition: false,
            selected_types_source: None,
            selected_type_names: None,
            mask_filter_cache: None,
            alpha_scratch: Vec::new(),
            blur_scratch: Vec::new(),
        }
    }
}

/// The characters of a text that may be missing.
pub open spec fn text_view(text: Option<String>) -> Option<Seq<char>> {
    match text {
        Some(text) => Some(text@),
        None => None,
    }
}

/// The characters of the names in a list that may be missing.
pub open spec fn names_view(names: Option<Vec<String>>) -> Option<Seq<Seq<char>>> {
    match names {
        Some(names) => Some(crate::text::views(names@)),
        None => None,
    }
}

/// The selection that a setting asks for: none, if it names nothing.
pub open spec fn selection_of(source: Option<Seq<char>>) -> Option<Seq<Seq<char>>> {
    match source {
        Some(text) => if crate::text::names_in(text).len() == 0 {
            None
        } else {
            Some(crate::text::names_in(text))
        },
        None => None,
    }
}

impl<C> State<C> {
    /// A cached filter is the one that belongs to its key.
    pub open spec fn cache_sound(self) -> bool {
        self.mask_filter_cache matches Some(cache) ==> cache.sound()
    }

    /// The parsed selection is the one that belongs to its source.
    pub open spec fn selection_sound(self) -> bool {
        names_view(self.selected_type_names) == selection_of(
            text_view(self.selected_types_source),
        )
    }

    /// The other state has the same colors and composition.
    pub open spec fn same_drawing(self, other: State<C>) -> bool {
        &&& self.segment_colors == other.segment_colors
        &&& self.next_color_index == other.next_color_index
        &&& self.composition == other.composition
        &&& self.attach_composition == other.attach_composition
    }

    /// The other state has the same selection.
    pub open spec fn same_selection(self, other: State<C>) -> bool {
        &&& self.selected_types_source == other.selected_types_source
        &&& self.selected_type_names == other.selected_type_names
    }

    /// The other state has the same maps.
    pub open spec fn same_scratch(self, other: State<C>) -> bool {
        &&& self.alpha_scratch == other.alpha_scratch
        &&& self.blur_scratch == other.blur_scratch
    }

    /// Clear all per-stream runtime state (segment colors, cached composition,
    /// attach decision and mask-filter cache).
    pub fn reset(&mut self)
        ensures
            final(self).segment_colors@ == no_colors(),
            final(self).next_color_index == 0,
            final(self).composition is None,
            !final(self).attach_composition,
            final(self).mask_filter_cache is None,
            final(self).same_selection(*old(self)),
            final(self).same_scratch(*old(self)),
    {
        self.segment_colors.clear();
        self.next_color_index = 0;
        self.composition = None;
        self.attach_composition = false;
        self.mask_filter_cache = None;
    }
}

/// The index of the color after the one at `index`.
pub open spec fn next_index(index: u64) -> u64 {
    if index == u64::MAX {
        u64::MAX
    } else {
        (index + 1) as u64
    }
}

/// The color of a segment. The background has none; any other value gets the next color of
/// `generate` when it first appears, and keeps it.
pub fn color_for_segment<C, G: Fn(u64, u32) -> u32>(
    state: &mut State<C>,
    segment_value: usize,
    hint_maximum_segment_type: u32,
    generate: &G,
) -> (r: Option<u32>)
    requires
        generate.requires((old(state).next_color_index, hint_maximum_segment_type)),
    ensures
        final(state).same_selection(*old(state)),
        final(state).same_scratch(*old(state)),
        final(state).mask_filter_cache == old(state).mask_filter_cache,
        final(state).composition == old(state).composition,
        final(state).attach_composition == old(state).attach_composition,
        segment_value == 0 || segment_value >= 256 ==> r is None && *final(state) == *old(state),
        0 < segment_value < 256 ==> {
            let slot = old(state).segment_colors@[segment_value as int];
            &&& slot is Some ==> r == slot && *final(state) == *old(state)
            &&& slot is None ==> {
                &&& r matches Some(color) && generate.ensures(
                    (old(state).next_color_index, hint_maximum_segment_type),
                    color,
                )
                &&& final(state).segment_colors@ == old(state).segment_colors@.update(
                    segment_value as int,
                    r,
                )
                &&& final(state).next_color_index == next_index(old(state).next_color_index)
            }
        },
{
    if segment_value == 0 || segment_value >= MASK_VALUES {
        return None;
    }
    match state.segment_colors.colors[segment_value] {
        Some(color) => Some(color),
        None => {
            let color: u32 = generate(state.next_color_index, hint_maximum_segment_type);
            if state.next_color_index < u64::MAX {
                state.next_color_index = state.next_color_index + 1;
            }
            state.segment_colors.colors[segment_value] = Some(color);
            assert(state.segment_colors@ =~= old(state).segment_colors@.update(
                segment_value as int,
                Some(color),
            ));
            Some(color)
        },
    }
}

/// The names that a setting selects; none, if it names nothing.
pub fn selected_type_names(selected_types: &Option<String>) -> (r: Option<Vec<String>>)
    ensures
        names_view(r) == selection_of(text_view(*selected_types)),
{
    match selected_types {
        Some(text) => {
            let names = split_names(text.as_str());
            assert(names@.len() == crate::text::views(names@).len());
            if names.len() == 0 {
                None
            } else {
                Some(names)
            }
        },
        None => None,
    }
}

fn same_text(a: &Option<String>, b: &Option<String>) -> (r: bool)
    ensures
        r == (text_view(*a) == text_view(*b)),
{
    match (a, b) {
        (Some(x), Some(y)) => *x == *y,
        (None, None) => true,
        _ => false,
    }
}

/// Parse the selection anew if the setting has changed, and forget the filter made for the
/// old one.
pub fn update_selected_type_cache<C>(state: &mut State<C>, selected_types: &Option<String>)
    ensures
        final(state).same_drawing(*old(state)),
        final(state).same_scratch(*old(state)),
        text_view(old(state).selected_types_source) == text_view(*selected_types)
            ==> *final(state) == *old(state),
        text_view(old(state).selected_types_source) != text_view(*selected_types) ==> {
            &&& names_view(final(state).selected_type_names) == selection_of(
                text_view(*selected_types),
            )
            &&& final(state).mask_filter_cache is None
        },
        text_view(final(state).selected_types_source) == text_view(*selected_types),
        old(state).selection_sound() ==> final(state).selection_sound(),
        old(state).cache_sound() ==> final(state).cache_sound(),
{
    if same_text(&state.selected_types_source, selected_types) {
        return;
    }
    state.selected_types_source = match selected_types {
        Some(text) => Some(text.clone()),
        None => None,
    };
    state.selected_type_names = selected_type_names(selected_types);
    state.mask_filter_cache = None;
}

fn same_names(a: &Vec<String>, b: &Vec<String>) -> (r: bool)
    ensures
        r == (crate::text::views(a@) == crate::text::views(b@)),
{
    assert(crate::text::views(a@).len() == a@.len());
    assert(crate::text::views(b@).len() == b@.len());
    if a.len() != b.len() {
        return false;
    }
    let mut i: usize = 0;
    while i < a.len()
        invariant
            i <= a.len() == b.len(),
            forall|k: int| 0 <= k < i ==> a@[k]@ == b@[k]@,
        decreases a.len() - i,
    {
        if a[i] != b[i] {
            assert(crate::text::views(a@)[i as int] != crate::text::views(b@)[i as int]);
            return false;
        }
        i = i + 1;
    }
    assert(crate::text::views(a@) =~= crate::text::views(b@));
    true
}

/// A copy of a list of names.
pub fn clone_names(names: &Vec<String>) -> (r: Vec<String>)
    ensures
        r@ == names@,
{
    let mut copy: Vec<String> = Vec::new();
    let mut i: usize = 0;
    while i < names.len()
        invariant
            i <= names.len(),
            copy@ == names@.take(i as int),
        decreases names.len() - i,
    {
        copy.push(names[i].clone());
        assert(copy@ =~= names@.take(i + 1));
        i = i + 1;
    }
    assert(names@.take(i as int) =~= names@);
    copy
}

fn clone_flags(flags: &Vec<bool>) -> (r: Vec<bool>)
    ensures
        r@ == flags@,
{
    let mut copy: Vec<bool> = Vec::new();
    let mut i: usize = 0;
    while i < flags.len()
        invariant
            i <= flags.len(),
            copy@ == flags@.take(i as int),
        decreases flags.len() - i,
    {
        copy.push(flags[i]);
        assert(copy@ =~= flags@.take(i + 1));
        i = i + 1;
    }
    assert(flags@.take(i as int) =~= flags@);
    copy
}

/// Which mask values pass: those whose class is selected. Without classes or without a
/// selection there is no filter.
pub fn build_mask_filter(
    classes: &Option<Vec<String>>,
    selected_types: &Option<Vec<String>>,
) -> (r: Option<Vec<bool>>)
    ensures
        (r is Some) == (classes is Some && selected_types is Some),
        r matches Some(filter) ==> filter@ == filter_of(
            crate::text::views(classes->0@),
            crate::text::views(selected_types->0@),
        ),
{
    let classes = match classes {
        Some(classes) => classes,
        None => {
            return None;
        },
    };
    let selected = match selected_types {
        Some(selected) => selected,
        None => {
            return None;
        },
    };
    let ghost names = crate::text::views(classes@);
    let ghost wanted = crate::text::views(selected@);
    let mut filter: Vec<bool> = Vec::new();
    let mut i: usize = 0;
    while i < classes.len()
        invariant
            i <= classes.len(),
            names == crate::text::views(classes@),
            wanted == crate::text::views(selected@),
            filter@ == filter_of(names, wanted).take(i as int),
        decreases classes.len() - i,
    {
        let mut allowed: bool = false;
        let mut k: usize = 0;
        while k < selected.len()
            invariant
                i < classes.len(),
                k <= selected.len(),
                names == crate::text::views(classes@),
                wanted == crate::text::views(selected@),
                allowed == wanted.take(k as int).contains(names[i as int]),
            decreases selected.len() - k,
        {
            let hit: bool = selected[k] == classes[i];
            proof {
                let before = wanted.take(k as int);
                let after = wanted.take(k + 1);
                assert(after =~= before.push(wanted[k as int]));
                assert(after[k as int] == wanted[k as int]);
                if before.contains(names[i as int]) {
                    let at = choose|at: int| 0 <= at < before.len() && before[at] == names[i as int];
                    assert(after[at] == names[i as int]);
                }
                if after.contains(names[i as int]) && !hit {
                    let at = choose|at: int| 0 <= at < after.len() && after[at] == names[i as int];
                    assert(before[at] == names[i as int]);
                }
            }
            allowed = allowed || hit;
            k = k + 1;
        }
        assert(wanted.take(k as int) =~= wanted);
        filter.push(allowed);
        assert(filter@ =~= filter_of(names, wanted).take(i + 1));
        i = i + 1;
    }
    assert(filter@ =~= filter_of(names, wanted));
    Some(filter)
}

/// The filter of [`build_mask_filter`], kept until the classes or the selection change.
pub fn cached_mask_filter<C>(
    state: &mut State<C>,
    classes: &Option<Vec<String>>,
    selected_types: &Option<Vec<String>>,
) -> (r: Option<Vec<bool>>)
    requires
        old(state).cache_sound(),
    ensures
        (r is Some) == (classes is Some && selected_types is Some),
        r matches Some(filter) ==> filter@ == filter_of(
            crate::text::views(classes->0@),
            crate::text::views(selected_types->0@),
        ),
        r is None ==> *final(state) == *old(state),
        r matches Some(filter) ==> (final(state).mask_filter_cache matches Some(cache) && {
            &&& names_view(cache.selected_types) == names_view(*selected_types)
            &&& crate::text::views(cache.classes@) == crate::text::views(classes->0@)
            &&& cache.filter@ == filter@
        }),
        final(state).cache_sound(),
        final(state).same_drawing(*old(state)),
        final(state).same_selection(*old(state)),
        final(state).same_scratch(*old(state)),
{
    match (classes, selected_types) {
        (Some(names), Some(selected)) => {
            match &state.mask_filter_cache {
                Some(cache) => {
                    let hit: bool = match &cache.selected_types {
                        Some(kept) => same_names(kept, selected) && same_names(
                            &cache.classes,
                            names,
                        ),
                        None => false,
                    };
                    if hit {
                        return Some(clone_flags(&cache.filter));
                    }
                },
                None => {},
            }
            let filter = build_mask_filter(classes, selected_types);
            match filter {
                Some(filter) => {
                    state.mask_filter_cache = Some(
                        MaskFilterCache {
                            selected_types: Some(clone_names(selected)),
                            classes: clone_names(names),
                            filter: clone_flags(&filter),
                        },
                    );
                    Some(filter)
                },
                None => None,
            }
        },
        _ => None,
    }
}

/// A mask: one byte per pixel, in rows of `stride` bytes.
#[derive(Debug)]
pub struct GrayMask {
    pub data: Vec<u8>,
    pub stride: usize,
    pub width: usize,
    pub height: usize,
}

impl GrayMask {
    /// The mask has no pixel.
    pub open spec fn vacant(self) -> bool {
        self.width == 0 || self.height == 0
    }

    /// Every row lies in the data.
    pub open spec fn sound(self) -> bool {
        self.vacant() || (self.height - 1) * self.stride + self.width <= self.data.len()
    }

    /// The value of a pixel.
    pub open spec fn value(self, x: int, y: int) -> int {
        self.data@[y * self.stride + x] as int
    }

    /// The value of a pixel.
    pub fn value_at(&self, x: usize, y: usize) -> (r: u8)
        requires
            self.sound(),
            x < self.width,
            y < self.height,
        ensures
            r == self.value(x as int, y as int),
    {
        let stride: usize = self.stride;
        let height: usize = self.height;
        assert(y * stride <= (height - 1) * stride && 0 <= y * stride) by (nonlinear_arith)
            requires
                y <= height - 1,
                0 <= stride,
                0 <= y,
        ;
        self.data[y * self.stride + x]
    }
}

/// A mask value is drawn: it is not the background and passes the filter, if there is one.
pub open spec fn passes(filter: Option<Seq<bool>>, value: int) -> bool {
    &&& value != 0
    &&& filter matches Some(filter) ==> value < filter.len() && filter[value]
}

/// The flags of a filter that may be missing.
pub open spec fn filter_view(filter: Option<Vec<bool>>) -> Option<Seq<bool>> {
    match filter {
        Some(filter) => Some(filter@),
        None => None,
    }
}

/// Whether a mask value is drawn.
pub fn is_visible(filter: &Option<Vec<bool>>, value: u8) -> (r: bool)
    ensures
        r == passes(filter_view(*filter), value as int),
{
    let allowed: bool = match filter {
        Some(filter) => (value as usize) < filter.len() && filter[value as usize],
        None => true,
    };
    value != 0 && allowed
}

/// A color component scaled by an opacity, rounded to the nearest.
pub open spec fn premultiplied(component: int, alpha: int) -> int {
    (component * alpha + 127) / 255
}

/// The four bytes of a pixel in the given color: blue, green, red and alpha, each color
/// scaled by the opacity.
pub open spec fn pixel_bytes(rgb: u32, alpha: u8) -> Seq<u8> {
    seq![
        premultiplied(rgb as int % 0x100, alpha as int) as u8,
        premultiplied(rgb as int / 0x100 % 0x100, alpha as int) as u8,
        premultiplied(rgb as int / 0x1_0000 % 0x100, alpha as int) as u8,
        alpha,
    ]
}

fn scaled(component: u8, alpha: u8) -> (r: u8)
    ensures
        r == premultiplied(component as int, alpha as int),
{
    let c: u32 = component as u32;
    let a: u32 = alpha as u32;
    assert(0 <= c * a <= 255 * 255) by (nonlinear_arith)
        requires
            0 <= c <= 255,
            0 <= a <= 255,
    ;
    ((c * a + 127) / 255) as u8
}

/// Put a pixel of the given color behind the ones in `canvas`.
pub fn write_premultiplied_bgra(canvas: &mut Vec<u8>, rgb: u32, alpha: u8)
    ensures
        final(canvas)@ == old(canvas)@ + pixel_bytes(rgb, alpha),
{
    let b: u8 = (rgb % 0x100) as u8;
    let g: u8 = (rgb / 0x100 % 0x100) as u8;
    let r: u8 = (rgb / 0x1_0000 % 0x100) as u8;
    canvas.push(scaled(b, alpha));
    canvas.push(scaled(g, alpha));
    canvas.push(scaled(r, alpha));
    canvas.push(alpha);
    assert(canvas@ =~= old(canvas)@ + pixel_bytes(rgb, alpha));
}

/// The colors given out so far: the table, the index of the next color, and how many were
/// newly made.
#[verifier::ext_equal]
pub struct Palette {
    pub table: Seq<Option<u32>>,
    pub next: u64,
    pub made: nat,
}

impl Palette {
    /// A value appears: a new one gets the next of the colors in `fresh`.
    pub open spec fn seeing(self, value: int, fresh: Seq<u32>) -> Palette {
        if 0 < value < 256 && self.table[value] is None {
            Palette {
                table: self.table.update(value, Some(fresh[self.made as int])),
                next: next_index(self.next),
                made: self.made + 1,
            }
        } else {
            self
        }
    }

    /// Values appear one after the other.
    pub open spec fn seeing_all(self, values: Seq<int>, fresh: Seq<u32>) -> Palette
        decreases values.len(),
    {
        if values.len() == 0 {
            self
        } else {
            self.seeing_all(values.drop_last(), fresh).seeing(values.last(), fresh)
        }
    }
}

/// The colors of a state.
pub open spec fn palette_of<C>(state: State<C>) -> Palette {
    Palette { table: state.segment_colors@, next: state.next_color_index, made: 0 }
}

/// The index of the `k`-th color after the one at `index`.
pub open spec fn index_after(index: u64, k: int) -> u64 {
    if index + k > u64::MAX {
        u64::MAX
    } else {
        (index + k) as u64
    }
}

/// `fresh` are colors that `generate` may give for consecutive indices.
pub open spec fn generated<G: Fn(u64, u32) -> u32>(
    generate: G,
    index: u64,
    hint: u32,
    fresh: Seq<u32>,
) -> bool {
    forall|k: int|
        0 <= k < fresh.len() ==> generate.ensures(
            (index_after(index, k), hint),
            #[trigger] fresh[k],
        )
}

/// The mask value that shows at a pixel of a canvas of `w` by `h` pixels, by nearest
/// neighbor; zero where nothing is drawn.
pub open spec fn shown(
    mask: GrayMask,
    filter: Option<Seq<bool>>,
    w: int,
    h: int,
    x: int,
    y: int,
) -> int {
    let value = mask.value(x * mask.width / w, y * mask.height / h);
    if passes(filter, value) {
        value
    } else {
        0
    }
}

/// The values that show on a canvas, row by row.
pub open spec fn shown_values(
    mask: GrayMask,
    filter: Option<Seq<bool>>,
    w: int,
    h: int,
) -> Seq<int> {
    Seq::new((w * h) as nat, |p: int| shown(mask, filter, w, h, p % w, p / w))
}

/// The four bytes that a mask value is drawn with: transparent for the background.
pub open spec fn value_bytes(table: Seq<Option<u32>>, value: int) -> Seq<u8> {
    if value == 0 {
        seq![0u8, 0u8, 0u8, 0u8]
    } else {
        pixel_bytes(table[value]->0, MASK_ALPHA)
    }
}

/// Each pixel of the canvas is drawn with its value's color.
pub open spec fn drawn_with(canvas: Seq<u8>, values: Seq<int>, table: Seq<Option<u32>>) -> bool {
    &&& canvas.len() == 4 * values.len()
    &&& forall|p: int|
        #![trigger values[p]]
        0 <= p < values.len() ==> {
            &&& 0 <= values[p] < table.len()
            &&& values[p] != 0 ==> table[values[p]] is Some
            &&& canvas.subrange(4 * p, 4 * p + 4) == value_bytes(table, values[p])
        }
}

/// The canvas of a mask and the colors after it was drawn.
pub open spec fn is_canvas(
    before: Palette,
    after: Palette,
    values: Seq<int>,
    canvas: Seq<u8>,
    fresh: Seq<u32>,
) -> bool {
    &&& after.table == before.seeing_all(values, fresh).table
    &&& after.next == before.seeing_all(values, fresh).next
    &&& fresh.len() == before.seeing_all(values, fresh).made
    &&& drawn_with(canvas, values, after.table)
}

/// The canvas of a mask and the colors after it was drawn, with new colors made by
/// `generate`.
pub open spec fn colored<G: Fn(u64, u32) -> u32>(
    generate: G,
    hint: u32,
    before: Palette,
    after: Palette,
    values: Seq<int>,
    canvas: Seq<u8>,
) -> bool {
    exists|fresh: Seq<u32>|
        generated(generate, before.next, hint, fresh) && #[trigger] is_canvas(
            before,
            after,
            values,
            canvas,
            fresh,
        )
}

/// A canvas of that size can be addressed.
pub open spec fn canvas_fits(mask: GrayMask, w: int, h: int) -> bool {
    &&& w * h * 4 <= usize::MAX
    &&& w * mask.width <= usize::MAX
    &&& h * mask.height <= usize::MAX
}

/// A sample position lies in the mask.
proof fn lemma_sample_in_range(x: int, extent: int, w: int)
    requires
        0 <= x < w,
        0 < extent,
    ensures
        0 <= x * extent / w < extent,
        0 <= x * extent <= w * extent,
{
    assert(0 <= x * extent < w * extent) by (nonlinear_arith)
        requires
            0 <= x < w,
            0 < extent,
    ;
    vstd::arithmetic::div_mod::lemma_div_is_ordered(0, x * extent, w);
    vstd::arithmetic::div_mod::lemma_multiply_divide_lt(x * extent, w, extent);
}

/// More colors at hand change nothing for the values seen so far.
proof fn lemma_more_fresh(
    before: Palette,
    values: Seq<int>,
    fresh: Seq<u32>,
    more: Seq<u32>,
)
    requires
        fresh.len() <= more.len(),
        before.seeing_all(values, fresh).made <= fresh.len(),
        forall|k: int| 0 <= k < fresh.len() ==> more[k] == fresh[k],
    ensures
        before.seeing_all(values, more) == before.seeing_all(values, fresh),
    decreases values.len(),
{
    if values.len() > 0 {
        lemma_more_fresh(before, values.drop_last(), fresh, more);
    }
}

/// Colorize a mask: a canvas of `canvas_w` by `canvas_h` pixels of four bytes, blue, green,
/// red and alpha, with each visible segment in its color and the rest transparent. Segments
/// that appear for the first time, row by row, get their colors from `generate`. Without
/// pixels on either side there is no canvas.
pub fn render_mask_canvas<C, G: Fn(u64, u32) -> u32>(
    mask: &GrayMask,
    canvas_w: u32,
    canvas_h: u32,
    mask_filter: &Option<Vec<bool>>,
    state: &mut State<C>,
    hint_maximum_segment_type: u32,
    generate: &G,
) -> (r: Option<Vec<u8>>)
    requires
        mask.sound(),
        canvas_fits(*mask, canvas_w as int, canvas_h as int),
        forall|index: u64| generate.requires((index, hint_maximum_segment_type)),
    ensures
        (r is None) == (canvas_w == 0 || canvas_h == 0 || mask.vacant()),
        r is None ==> *final(state) == *old(state),
        final(state).same_selection(*old(state)),
        final(state).same_scratch(*old(state)),
        final(state).mask_filter_cache == old(state).mask_filter_cache,
        final(state).composition == old(state).composition,
        final(state).attach_composition == old(state).attach_composition,
        r matches Some(canvas) ==> colored(
            *generate,
            hint_maximum_segment_type,
            palette_of(*old(state)),
            palette_of(*final(state)),
            shown_values(*mask, filter_view(*mask_filter), canvas_w as int, canvas_h as int),
            canvas@,
        ),
{
    if canvas_w == 0 || canvas_h == 0 || mask.width == 0 || mask.height == 0 {
        return None;
    }
    let w: usize = canvas_w as usize;
    let h: usize = canvas_h as usize;
    let ghost filter = filter_view(*mask_filter);
    let ghost values = shown_values(*mask, filter, w as int, h as int);
    let ghost before = palette_of(*state);
    let ghost mut fresh: Seq<u32> = Seq::empty();
    let ghost mut palette: Palette = before;
    let mut canvas: Vec<u8> = Vec::new();
    let mut y: usize = 0;
    assert(values.take(0) =~= Seq::<int>::empty());
    assert(0 * w == 0);
    while y < h
        invariant
            y <= h,
            0 < w == canvas_w,
            0 < h == canvas_h,
            mask.sound(),
            !mask.vacant(),
            canvas_fits(*mask, w as int, h as int),
            forall|index: u64| generate.requires((index, hint_maximum_segment_type)),
            filter == filter_view(*mask_filter),
            values == shown_values(*mask, filter, w as int, h as int),
            before == palette_of(*old(state)),
            state.same_selection(*old(state)),
            state.same_scratch(*old(state)),
            state.mask_filter_cache == old(state).mask_filter_cache,
            state.composition == old(state).composition,
            state.attach_composition == old(state).attach_composition,
            palette == before.seeing_all(values.take(y * w), fresh),
            palette.table == state.segment_colors@,
            palette.next == state.next_color_index,
            palette.next == index_after(before.next, palette.made as int),
            palette.made == fresh.len(),
            generated(*generate, before.next, hint_maximum_segment_type, fresh),
            drawn_with(canvas@, values.take(y * w), palette.table),
        decreases h - y,
    {
        proof {
            lemma_sample_in_range(y as int, mask.height as int, h as int);
        }
        let src_y: usize = y * mask.height / h;
        let mut x: usize = 0;
        while x < w
            invariant
                x <= w,
                y < h,
                0 < w == canvas_w,
                0 < h == canvas_h,
                mask.sound(),
                !mask.vacant(),
                canvas_fits(*mask, w as int, h as int),
                src_y == y * mask.height / (h as int),
                src_y < mask.height,
                forall|index: u64| generate.requires((index, hint_maximum_segment_type)),
                filter == filter_view(*mask_filter),
                values == shown_values(*mask, filter, w as int, h as int),
                before == palette_of(*old(state)),
                state.same_selection(*old(state)),
                state.same_scratch(*old(state)),
                state.mask_filter_cache == old(state).mask_filter_cache,
                state.composition == old(state).composition,
                state.attach_composition == old(state).attach_composition,
                palette == before.seeing_all(values.take(y * w + x), fresh),
                palette.table == state.segment_colors@,
                palette.next == state.next_color_index,
                palette.next == index_after(before.next, palette.made as int),
                palette.made == fresh.len(),
                generated(*generate, before.next, hint_maximum_segment_type, fresh),
                drawn_with(canvas@, values.take(y * w + x), palette.table),
            decreases w - x,
        {
            proof {
                lemma_sample_in_range(x as int, mask.width as int, w as int);
            }
            let src_x: usize = x * mask.width / w;
            let value: u8 = mask.value_at(src_x, src_y);
            let ghost p: int = y * w + x;
            proof {
                vstd::arithmetic::div_mod::lemma_fundamental_div_mod_converse(
                    p,
                    w as int,
                    y as int,
                    x as int,
                );
                assert(0 <= y * w && p < w * h) by (nonlinear_arith)
                    requires
                        p == y * w + x,
                        0 <= x < w,
                        0 <= y < h,
                ;
                assert(values[p] == shown(*mask, filter, w as int, h as int, x as int, y as int));
                assert(values.take(p + 1).drop_last() =~= values.take(p));
                assert(values.take(p + 1).last() == values[p]);
            }
            let ghost drawn = canvas@;
            let ghost earlier = palette;
            if is_visible(mask_filter, value) {
                assert(values[p] == value);
                let color = color_for_segment(
                    state,
                    value as usize,
                    hint_maximum_segment_type,
                    generate,
                );
                match color {
                    Some(rgb) => {
                        proof {
                            if earlier.table[value as int] is None {
                                let more = fresh.push(rgb);
                                lemma_more_fresh(before, values.take(p), fresh, more);
                                assert(more[earlier.made as int] == rgb);
                                fresh = more;
                            }
                            palette = before.seeing_all(values.take(p + 1), fresh);
                            assert(palette.table =~= state.segment_colors@);
                        }
                        write_premultiplied_bgra(&mut canvas, rgb, MASK_ALPHA);
                        assert(state.segment_colors@[value as int] == Some(rgb));
                    },
                    None => {
                        canvas.push(0);
                        canvas.push(0);
                        canvas.push(0);
                        canvas.push(0);
                    },
                }
            } else {
                assert(values[p] == 0);
                canvas.push(0);
                canvas.push(0);
                canvas.push(0);
                canvas.push(0);
                proof {
                    palette = before.seeing_all(values.take(p + 1), fresh);
                }
            }
            proof {
                assert(canvas@.take(drawn.len() as int) =~= drawn);
                assert(canvas@.skip(drawn.len() as int) =~= value_bytes(palette.table, values[p]));
                lemma_drawn_one_more(
                    drawn,
                    canvas@,
                    values.take(p),
                    values.take(p + 1),
                    earlier.table,
                    palette.table,
                );
            }
            x = x + 1;
        }
        assert(y * w + w == (y + 1) * w) by (nonlinear_arith);
        y = y + 1;
    }
    assert(h * w == w * h) by (nonlinear_arith);
    assert(values.take(y * w) =~= values);
    let r = Some(canvas);
    assert(is_canvas(before, palette_of(*state), values, r->0@, fresh));
    r
}

/// One more pixel behind a canvas.
proof fn lemma_drawn_one_more(
    before: Seq<u8>,
    after: Seq<u8>,
    values: Seq<int>,
    more: Seq<int>,
    table: Seq<Option<u32>>,
    grown: Seq<Option<u32>>,
)
    requires
        drawn_with(before, values, table),
        more.len() == values.len() + 1,
        more.drop_last() == values,
        after.len() == before.len() + 4,
        after.take(before.len() as int) == before,
        after.skip(before.len() as int) == value_bytes(grown, more.last()),
        0 <= more.last() < grown.len(),
        more.last() != 0 ==> grown[more.last()] is Some,
        grown.len() == table.len(),
        forall|v: int|
            0 <= v < table.len() && #[trigger] table[v] is Some ==> grown[v] == table[v],
    ensures
        drawn_with(after, more, grown),
{
    assert forall|p: int| #![trigger more[p]] 0 <= p < more.len() implies {
        &&& 0 <= more[p] < grown.len()
        &&& more[p] != 0 ==> grown[more[p]] is Some
        &&& after.subrange(4 * p, 4 * p + 4) == value_bytes(grown, more[p])
    } by {
        if p < values.len() {
            assert(more[p] == more.drop_last()[p]);
            assert(values[p] != 0 ==> table[values[p]] is Some);
            assert(after.subrange(4 * p, 4 * p + 4) =~= after.take(before.len() as int).subrange(
                4 * p,
                4 * p + 4,
            ));
        } else {
            assert(after.subrange(4 * p, 4 * p + 4) =~= after.skip(before.len() as int));
        }
    }
}

/// The part of the frame that a mask covers.
#[derive(Debug, Clone, Copy, PartialEq, Eq, Structural)]
pub struct MaskRegion {
    pub x: i32,
    pub y: i32,
    pub width: u32,
    pub height: u32,
}

/// The part of a frame that a mask of the given position and size covers: its offset moved
/// into the frame, its size cut off at the frame's edge. None, if no pixel is left.
pub open spec fn region_of(
    x: int,
    y: int,
    width: int,
    height: int,
    frame_w: int,
    frame_h: int,
) -> Option<MaskRegion> {
    let left = crate::geometry::int_min(crate::geometry::int_max(x, 0), frame_w);
    let top = crate::geometry::int_min(crate::geometry::int_max(y, 0), frame_h);
    let w = crate::geometry::int_min(width, frame_w - left);
    let h = crate::geometry::int_min(height, frame_h - top);
    if w == 0 || h == 0 {
        None
    } else {
        Some(MaskRegion { x: left as i32, y: top as i32, width: w as u32, height: h as u32 })
    }
}

/// The part of a frame that a mask of the given position and size covers.
pub fn visible_region(
    x: i32,
    y: i32,
    width: u32,
    height: u32,
    frame_w: i32,
    frame_h: i32,
) -> (r: Option<MaskRegion>)
    requires
        0 <= frame_w,
        0 <= frame_h,
    ensures
        r == region_of(
            x as int,
            y as int,
            width as int,
            height as int,
            frame_w as int,
            frame_h as int,
        ),
{
    if width == 0 || height == 0 {
        return None;
    }
    let left: i32 = if x < 0 {
        0
    } else if x > frame_w {
        frame_w
    } else {
        x
    };
    let top: i32 = if y < 0 {
        0
    } else if y > frame_h {
        frame_h
    } else {
        y
    };
    let room_w: u32 = (frame_w - left) as u32;
    let room_h: u32 = (frame_h - top) as u32;
    let w: u32 = if width < room_w {
        width
    } else {
        room_w
    };
    let h: u32 = if height < room_h {
        height
    } else {
        room_h
    };
    if w == 0 || h == 0 {
        return None;
    }
    Some(MaskRegion { x: left, y: top, width: w, height: h })
}

/// A mask's region lies in the frame and is not empty.
pub proof fn law_mask_regions_stay_in_frame(
    x: int,
    y: int,
    width: int,
    height: int,
    frame_w: i32,
    frame_h: i32,
)
    requires
        0 <= width <= u32::MAX,
        0 <= height <= u32::MAX,
        0 <= frame_w,
        0 <= frame_h,
    ensures
        region_of(x, y, width, height, frame_w as int, frame_h as int) matches Some(region) ==> {
            &&& 0 <= region.x && region.x + region.width <= frame_w
            &&& 0 <= region.y && region.y + region.height <= frame_h
            &&& 0 < region.width <= width
            &&& 0 < region.height <= height
        },
        0 <= x && x + width <= frame_w && 0 <= y && y + height <= frame_h && 0 < width && 0 < height
            ==> region_of(x, y, width, height, frame_w as int, frame_h as int) == Some(
            MaskRegion {
                x: x as i32,
                y: y as i32,
                width: width as u32,
                height: height as u32,
            },
        ),
{
}

/// Which classification names the classes of a segmentation: the first of those in an
/// n-to-n relation with it, else the first that it relates to. Each is given by the names of
/// its classes.
pub open spec fn naming_classification(
    n_to_n: Seq<Vec<String>>,
    relate_to: Seq<Vec<String>>,
) -> Option<Vec<String>> {
    if n_to_n.len() > 0 {
        Some(n_to_n[0])
    } else if relate_to.len() > 0 {
        Some(relate_to[0])
    } else {
        None
    }
}

/// Which classification names the classes of a segmentation.
pub fn related_classification(
    n_to_n: Vec<Vec<String>>,
    relate_to: Vec<Vec<String>>,
) -> (r: Option<Vec<String>>)
    ensures
        r == naming_classification(n_to_n@, relate_to@),
{
    let mut closest = n_to_n;
    let mut others = relate_to;
    if closest.len() > 0 {
        Some(closest.remove(0))
    } else if others.len() > 0 {
        Some(others.remove(0))
    } else {
        None
    }
}

/// A segmentation of a frame: a mask, where it lies, and the classes of its values.
#[derive(Debug)]
pub struct Segmentation {
    pub mask: GrayMask,
    pub x: i32,
    pub y: i32,
    pub width: u32,
    pub height: u32,
    pub classes: Option<Vec<String>>,
}

impl Segmentation {
    /// Where the mask is drawn.
    pub open spec fn region(self, frame_w: int, frame_h: int) -> Option<MaskRegion> {
        if self.mask.vacant() {
            None
        } else {
            region_of(
                self.x as int,
                self.y as int,
                self.width as int,
                self.height as int,
                frame_w,
                frame_h,
            )
        }
    }

    /// Which of the mask's values are drawn.
    pub open spec fn filter(self, selected: Option<Seq<Seq<char>>>) -> Option<Seq<bool>> {
        match (names_view(self.classes), selected) {
            (Some(classes), Some(selected)) => Some(filter_of(classes, selected)),
            _ => None,
        }
    }

    /// The mask can be read, and its canvas be addressed.
    pub open spec fn drawable(self, frame_w: int, frame_h: int) -> bool {
        &&& self.mask.sound()
        &&& region_of(
            self.x as int,
            self.y as int,
            self.width as int,
            self.height as int,
            frame_w,
            frame_h,
        ) matches Some(region) ==> canvas_fits(
            self.mask,
            region.width as int,
            region.height as int,
        )
    }
}

/// A colored mask and where it is drawn.
#[derive(Debug)]
pub struct MaskLayer {
    pub canvas: Vec<u8>,
    pub region: MaskRegion,
}

/// The segmentations that are drawn, by their place in the list.
pub open spec fn drawn_masks(
    segmentations: Seq<Segmentation>,
    frame_w: int,
    frame_h: int,
) -> Seq<int>
    decreases segmentations.len(),
{
    if segmentations.len() == 0 {
        Seq::empty()
    } else {
        let before = drawn_masks(segmentations.drop_last(), frame_w, frame_h);
        if segmentations.last().region(frame_w, frame_h) is Some {
            before.push(segmentations.len() - 1)
        } else {
            before
        }
    }
}

/// A layer shows a segmentation, with the colors before and after it.
pub open spec fn is_layer<G: Fn(u64, u32) -> u32>(
    layer: MaskLayer,
    segmentation: Segmentation,
    selected: Option<Seq<Seq<char>>>,
    frame: (int, int),
    before: Palette,
    after: Palette,
    generate: G,
    hint: u32,
) -> bool {
    &&& segmentation.region(frame.0, frame.1) == Some(layer.region)
    &&& colored(
        generate,
        hint,
        before,
        after,
        shown_values(
            segmentation.mask,
            segmentation.filter(selected),
            layer.region.width as int,
            layer.region.height as int,
        ),
        layer.canvas@,
    )
}

/// The layers show the segmentations one after the other; `stages` are the colors before,
/// between and after them.
pub open spec fn are_layers<G: Fn(u64, u32) -> u32>(
    layers: Seq<MaskLayer>,
    segmentations: Seq<Segmentation>,
    selected: Option<Seq<Seq<char>>>,
    frame: (int, int),
    stages: Seq<Palette>,
    generate: G,
    hint: u32,
) -> bool {
    let drawn = drawn_masks(segmentations, frame.0, frame.1);
    &&& layers.len() == drawn.len()
    &&& stages.len() == layers.len() + 1
    &&& forall|k: int|
        #![trigger layers[k]]
        0 <= k < layers.len() ==> is_layer(
            layers[k],
            segmentations[drawn[k]],
            selected,
            frame,
            stages[k],
            stages[k + 1],
            generate,
            hint,
        )
}

/// Colorize the segmentations of a frame, each where it is visible, in order.
pub fn segmentation_mask_layers<C, G: Fn(u64, u32) -> u32>(
    segmentations: &[Segmentation],
    state: &mut State<C>,
    settings: &Settings,
    frame_w: i32,
    frame_h: i32,
    generate: &G,
) -> (r: Vec<MaskLayer>)
    requires
        0 <= frame_w,
        0 <= frame_h,
        old(state).cache_sound(),
        old(state).selection_sound(),
        forall|i: int|
            0 <= i < segmentations@.len() ==> (#[trigger] segmentations@[i]).drawable(
                frame_w as int,
                frame_h as int,
            ),
        forall|index: u64| generate.requires((index, settings.hint_maximum_segment_type)),
    ensures
        final(state).cache_sound(),
        final(state).selection_sound(),
        text_view(final(state).selected_types_source) == text_view(settings.selected_types),
        final(state).same_scratch(*old(state)),
        final(state).composition == old(state).composition,
        final(state).attach_composition == old(state).attach_composition,
        exists|stages: Seq<Palette>|
            #[trigger] are_layers(
                r@,
                segmentations@,
                selection_of(text_view(settings.selected_types)),
                (frame_w as int, frame_h as int),
                stages,
                *generate,
                settings.hint_maximum_segment_type,
            ) && stages[0] == palette_of(*old(state)) && stages.last() == palette_of(*final(state)),
{
    update_selected_type_cache(state, &settings.selected_types);
    let selected = match &state.selected_type_names {
        Some(names) => Some(clone_names(names)),
        None => None,
    };
    let ghost names = selection_of(text_view(settings.selected_types));
    let ghost frame = (frame_w as int, frame_h as int);
    let ghost hint = settings.hint_maximum_segment_type;
    let ghost mut stages: Seq<Palette> = seq![palette_of(*state)];
    let mut layers: Vec<MaskLayer> = Vec::new();
    let mut i: usize = 0;
    assert(segmentations@.take(0) =~= Seq::<Segmentation>::empty());
    while i < segmentations.len()
        invariant
            i <= segmentations.len(),
            0 <= frame_w,
            0 <= frame_h,
            frame == (frame_w as int, frame_h as int),
            hint == settings.hint_maximum_segment_type,
            names == selection_of(text_view(settings.selected_types)),
            names_view(selected) == names,
            forall|k: int|
                0 <= k < segmentations@.len() ==> (#[trigger] segmentations@[k]).drawable(
                    frame_w as int,
                    frame_h as int,
                ),
            forall|index: u64| generate.requires((index, settings.hint_maximum_segment_type)),
            state.cache_sound(),
            state.selection_sound(),
            text_view(state.selected_types_source) == text_view(settings.selected_types),
            state.same_scratch(*old(state)),
            state.composition == old(state).composition,
            state.attach_composition == old(state).attach_composition,
            are_layers(
                layers@,
                segmentations@.take(i as int),
                names,
                frame,
                stages,
                *generate,
                hint,
            ),
            stages[0] == palette_of(*old(state)),
            stages.last() == palette_of(*state),
        decreases segmentations.len() - i,
    {
        let ghost before = segmentations@.take(i as int);
        let ghost after = segmentations@.take(i + 1);
        let segmentation = &segmentations[i];
        proof {
            assert(after.drop_last() =~= before);
            assert(after.last() == *segmentation);
            lemma_drawn_masks_in_range(before, frame.0, frame.1);
        }
        let region = visible_region(
            segmentation.x,
            segmentation.y,
            segmentation.width,
            segmentation.height,
            frame_w,
            frame_h,
        );
        match region {
            Some(region) => {
                let filter = cached_mask_filter(state, &segmentation.classes, &selected);
                assert(filter_view(filter) == segmentation.filter(names));
                let ghost earlier = palette_of(*state);
                let canvas = render_mask_canvas(
                    &segmentation.mask,
                    region.width,
                    region.height,
                    &filter,
                    state,
                    settings.hint_maximum_segment_type,
                    generate,
                );
                match canvas {
                    Some(canvas) => {
                        let layer = MaskLayer { canvas, region };
                        let ghost had = layers@;
                        let ghost grown = stages.push(palette_of(*state));
                        assert(is_layer(
                            layer,
                            *segmentation,
                            names,
                            frame,
                            earlier,
                            palette_of(*state),
                            *generate,
                            hint,
                        ));
                        layers.push(layer);
                        proof {
                            let drawn = drawn_masks(after, frame.0, frame.1);
                            assert forall|k: int|
                                #![trigger layers@[k]]
                                0 <= k < layers@.len() implies is_layer(
                                layers@[k],
                                after[drawn[k]],
                                names,
                                frame,
                                grown[k],
                                grown[k + 1],
                                *generate,
                                hint,
                            ) by {
                                if k < had.len() {
                                    let d = drawn_masks(before, frame.0, frame.1);
                                    assert(layers@[k] == had[k]);
                                    assert(after[d[k]] == before[d[k]]);
                                }
                            }
                            stages = grown;
                        }
                    },
                    None => {
                        proof {
                            lemma_layers_of_more(
                                layers@,
                                before,
                                after,
                                names,
                                frame,
                                stages,
                                *generate,
                                hint,
                            );
                        }
                    },
                }
            },
            None => {
                proof {
                    lemma_layers_of_more(
                        layers@,
                        before,
                        after,
                        names,
                        frame,
                        stages,
                        *generate,
                        hint,
                    );
                }
            },
        }
        i = i + 1;
    }
    assert(segmentations@.take(i as int) =~= segmentations@);
    layers
}

proof fn lemma_drawn_masks_in_range(
    segmentations: Seq<Segmentation>,
    frame_w: int,
    frame_h: int,
)
    ensures
        forall|k: int|
            0 <= k < drawn_masks(segmentations, frame_w, frame_h).len() ==> 0 <= #[trigger] drawn_masks(
                segmentations,
                frame_w,
                frame_h,
            )[k] < segmentations.len(),
    decreases segmentations.len(),
{
    if segmentations.len() > 0 {
        lemma_drawn_masks_in_range(segmentations.drop_last(), frame_w, frame_h);
        let before = drawn_masks(segmentations.drop_last(), frame_w, frame_h);
        let drawn = drawn_masks(segmentations, frame_w, frame_h);
        assert forall|k: int| 0 <= k < drawn.len() implies 0 <= #[trigger] drawn[k]
            < segmentations.len() by {
            if k < before.len() {
                assert(drawn[k] == before[k]);
            }
        }
    }
}

/// A segmentation that is not drawn adds no layer.
proof fn lemma_layers_of_more<G: Fn(u64, u32) -> u32>(
    layers: Seq<MaskLayer>,
    before: Seq<Segmentation>,
    after: Seq<Segmentation>,
    selected: Option<Seq<Seq<char>>>,
    frame: (int, int),
    stages: Seq<Palette>,
    generate: G,
    hint: u32,
)
    requires
        after.len() == before.len() + 1,
        after.drop_last() == before,
        after.last().region(frame.0, frame.1) is None,
        are_layers(layers, before, selected, frame, stages, generate, hint),
    ensures
        are_layers(layers, after, selected, frame, stages, generate, hint),
{
    lemma_drawn_masks_in_range(before, frame.0, frame.1);
    let drawn = drawn_masks(before, frame.0, frame.1);
    assert forall|k: int| #![trigger layers[k]] 0 <= k < layers.len() implies is_layer(
        layers[k],
        after[drawn[k]],
        selected,
        frame,
        stages[k],
        stages[k + 1],
        generate,
        hint,
    ) by {
        assert(after[drawn[k]] == before[drawn[k]]);
    }
}

/// The soft claim of a layer.
pub open spec fn layer_claim(layer: MaskLayer, priority: i32) -> crate::coordination::Claim {
    crate::coordination::Claim {
        rect: Rect::of(
            layer.region.x as int,
            layer.region.y as int,
            layer.region.width as int,
            layer.region.height as int,
        ),
        kind: crate::coordination::ClaimKind::Avoid,
        owner: OVERLAY_OWNER@,
        priority,
    }
}

/// Publish the mask regions that were drawn as soft claims, so that a downstream overlay's
/// label placement prefers not to draw on top of them. Masks are large and
/// semi-transparent, hence soft claims rather than hard ones.
pub fn claim_layers(meta: &mut Option<ClaimMeta>, layers: &[MaskLayer], settings: &Settings)
    requires
        forall|i: int|
            0 <= i < layers@.len() ==> (#[trigger] layers@[i]).region.width <= i32::MAX
                && layers@[i].region.height <= i32::MAX,
    ensures
        !settings.publish_claimed_regions || layers@.len() == 0 ==> *final(meta) == *old(meta),
        settings.publish_claimed_regions ==> crate::coordination::claims_on(*final(meta))
            == crate::coordination::claims_on(*old(meta)) + Seq::new(
            layers@.len(),
            |i: int| layer_claim(layers@[i], settings.priority),
        ),
{
    if !settings.publish_claimed_regions {
        return;
    }
    let mut regions: Vec<ClaimedRegion> = Vec::new();
    let mut i: usize = 0;
    while i < layers.len()
        invariant
            i <= layers.len(),
            i == regions@.len(),
            forall|k: int|
                0 <= k < layers@.len() ==> (#[trigger] layers@[k]).region.width <= i32::MAX
                    && layers@[k].region.height <= i32::MAX,
            forall|k: int|
                0 <= k < i ==> (#[trigger] regions@[k])@ == layer_claim(
                    layers@[k],
                    settings.priority,
                ) && regions@[k].rect.measurable(),
        decreases layers.len() - i,
    {
        let region = layers[i].region;
        assert(layers@[i as int].region.width <= i32::MAX);
        let rect = Rect::from_xywh(
            region.x,
            region.y,
            region.width as i32,
            region.height as i32,
        );
        regions.push(ClaimedRegion::avoid(rect, OVERLAY_OWNER, settings.priority));
        i = i + 1;
    }
    assert(crate::coordination::claims(regions@) =~= Seq::new(
        layers@.len(),
        |i: int| layer_claim(layers@[i], settings.priority),
    ));
    add_claimed_regions(meta, regions.as_slice());
}

/// A segment keeps its color: whatever appears later, and whatever the setting asks of new
/// colors, a color that was given stays.
pub proof fn law_segment_colors_persist(
    palette: Palette,
    values: Seq<int>,
    fresh: Seq<u32>,
    value: int,
)
    requires
        palette.table.len() == 256,
        0 <= value < 256,
        palette.table[value] is Some,
    ensures
        palette.seeing_all(values, fresh).table[value] == palette.table[value],
    decreases values.len(),
{
    if values.len() > 0 {
        lemma_table_keeps_its_size(palette, values.drop_last(), fresh);
        law_segment_colors_persist(palette, values.drop_last(), fresh, value);
    }
}

/// Every value that shows has a color afterwards.
pub proof fn law_seen_segments_have_colors(
    palette: Palette,
    values: Seq<int>,
    fresh: Seq<u32>,
    i: int,
)
    requires
        palette.table.len() == 256,
        0 <= i < values.len(),
        0 < values[i] < 256,
    ensures
        palette.seeing_all(values, fresh).table[values[i]] is Some,
    decreases values.len(),
{
    let before = palette.seeing_all(values.drop_last(), fresh);
    lemma_table_keeps_its_size(palette, values.drop_last(), fresh);
    if i < values.len() - 1 {
        law_seen_segments_have_colors(palette, values.drop_last(), fresh, i);
        law_segment_colors_persist(before, seq![values.last()], fresh, values[i]);
        assert(seq![values.last()].drop_last() =~= Seq::<int>::empty());
        assert(before.seeing_all(Seq::empty(), fresh) == before);
    }
}

proof fn lemma_table_keeps_its_size(palette: Palette, values: Seq<int>, fresh: Seq<u32>)
    requires
        palette.table.len() == 256,
    ensures
        palette.seeing_all(values, fresh).table.len() == 256,
    decreases values.len(),
{
    if values.len() > 0 {
        lemma_table_keeps_its_size(palette, values.drop_last(), fresh);
    }
}

/// A canvas shows its mask upright: the canvas pixel `(x, y)` shows the mask's pixel in the
/// column and row whose stretch of the canvas it lies in, so that going right or down on the
/// canvas never goes left or up in the mask. It is transparent where that pixel is background
/// or its class is filtered out, and else half transparent, with the color of its value, each
/// component scaled to the nearest.
pub proof fn law_canvas_shows_the_mask_upright<G: Fn(u64, u32) -> u32>(
    generate: G,
    hint: u32,
    before: Palette,
    after: Palette,
    mask: GrayMask,
    filter: Option<Seq<bool>>,
    w: int,
    h: int,
    canvas: Seq<u8>,
    x: int,
    y: int,
    column: int,
    row: int,
)
    requires
        colored(generate, hint, before, after, shown_values(mask, filter, w, h), canvas),
        0 <= x < w,
        0 <= y < h,
        column * w <= x * mask.width < (column + 1) * w,
        row * h <= y * mask.height < (row + 1) * h,
    ensures
        ({
            let value = mask.data@[row * mask.stride + column];
            let at = 4 * (y * w + x);
            let hidden = value == 0 || (filter matches Some(flags) && !(value < flags.len()
                && flags[value as int]));
            &&& canvas.len() == 4 * (w * h)
            &&& 0 <= at <= canvas.len() - 4
            &&& hidden ==> canvas[at] == 0 && canvas[at + 1] == 0 && canvas[at + 2] == 0
                && canvas[at + 3] == 0
            &&& !hidden ==> canvas[at + 3] == 0x80 && after.table[value as int] is Some && {
                let rgb = after.table[value as int]->0 as int;
                &&& -127 <= rgb % 0x100 * 0x80 - 255 * canvas[at] <= 127
                &&& -127 <= rgb / 0x100 % 0x100 * 0x80 - 255 * canvas[at + 1] <= 127
                &&& -127 <= rgb / 0x1_0000 % 0x100 * 0x80 - 255 * canvas[at + 2] <= 127
            }
        }),
{
    let values = shown_values(mask, filter, w, h);
    let fresh = choose|fresh: Seq<u32>|
        generated(generate, before.next, hint, fresh) && #[trigger] is_canvas(
            before,
            after,
            values,
            canvas,
            fresh,
        );
    assert(drawn_with(canvas, values, after.table));
    let p = y * w + x;
    vstd::arithmetic::div_mod::lemma_fundamental_div_mod_converse(p, w, y, x);
    assert(0 <= y * w && p < w * h) by (nonlinear_arith)
        requires
            p == y * w + x,
            0 <= x < w,
            0 <= y < h,
    ;
    lemma_sampled(x * mask.width, w, column);
    lemma_sampled(y * mask.height, h, row);
    assert(values[p] == shown(mask, filter, w, h, x, y));
    let drawn = canvas.subrange(4 * p, 4 * p + 4);
    assert(drawn == value_bytes(after.table, values[p]));
    assert(drawn[0] == canvas[4 * p]);
    assert(drawn[1] == canvas[4 * p + 1]);
    assert(drawn[2] == canvas[4 * p + 2]);
    assert(drawn[3] == canvas[4 * p + 3]);
}

proof fn lemma_sampled(a: int, d: int, q: int)
    requires
        0 < d,
        q * d <= a < (q + 1) * d,
    ensures
        a / d == q,
{
    let r = a - q * d;
    assert(a == d * q + r && r < d) by (nonlinear_arith)
        requires
            r == a - q * d,
            a < (q + 1) * d,
    ;
    vstd::arithmetic::div_mod::lemma_fundamental_div_mod_converse(a, d, q, r);
}

/// On a canvas of the mask's own size every pixel shows the mask's pixel at the same place.
pub proof fn law_canvas_of_the_masks_size_shows_each_pixel<G: Fn(u64, u32) -> u32>(
    generate: G,
    hint: u32,
    before: Palette,
    after: Palette,
    mask: GrayMask,
    filter: Option<Seq<bool>>,
    canvas: Seq<u8>,
    x: int,
    y: int,
)
    requires
        colored(
            generate,
            hint,
            before,
            after,
            shown_values(mask, filter, mask.width as int, mask.height as int),
            canvas,
        ),
        0 <= x < mask.width,
        0 <= y < mask.height,
    ensures
        ({
            let value = mask.data@[y * mask.stride + x];
            let at = 4 * (y * mask.width + x);
            &&& canvas[at + 3] == 0 || canvas[at + 3] == 0x80
            &&& canvas[at + 3] == 0 <==> value == 0 || (filter matches Some(flags) && !(value
                < flags.len() && flags[value as int]))
        }),
{
    let w = mask.width as int;
    let h = mask.height as int;
    assert((x + 1) * w == x * w + w) by (nonlinear_arith);
    assert((y + 1) * h == y * h + h) by (nonlinear_arith);
    law_canvas_shows_the_mask_upright(
        generate,
        hint,
        before,
        after,
        mask,
        filter,
        w,
        h,
        canvas,
        x,
        y,
        x,
        y,
    );
}

/// A mask's values show if their classes are selected: the value `v` stands for the `v`-th
/// class. A value beyond the classes does not show, nor does the background; without classes
/// or without a selection every other value does.
pub proof fn law_selected_classes_show(
    segmentation: Segmentation,
    selected: Option<Seq<Seq<char>>>,
    value: int,
)
    requires
        0 <= value,
    ensures
        passes(segmentation.filter(selected), value) <==> value != 0 && (segmentation.classes is None
            || selected is None || (value < segmentation.classes->0@.len() && exists|j: int|
            0 <= j < selected->0.len() && #[trigger] selected->0[j]
                == segmentation.classes->0@[value]@)),
{
    if segmentation.classes is Some && selected is Some && value
        < segmentation.classes->0@.len() {
        let name = segmentation.classes->0@[value]@;
        let names = crate::text::views(segmentation.classes->0@);
        assert(names[value] == name);
        assert(filter_of(names, selected->0)[value] == selected->0.contains(name));
        if selected->0.contains(name) {
            let j = choose|j: int| 0 <= j < selected->0.len() && selected->0[j] == name;
            assert(selected->0[j] == name);
        }
    }
}

/// A mask is drawn from its own position on, or from the frame's edge where that lies
/// outside, and as large as it is, or up to the frame's other edge. It is not drawn where it
/// has no extent or where no pixel of the frame is left for it.
pub proof fn law_mask_regions_fill_what_fits(
    x: int,
    y: int,
    width: int,
    height: int,
    frame_w: i32,
    frame_h: i32,
)
    requires
        0 <= width <= u32::MAX,
        0 <= height <= u32::MAX,
        0 <= frame_w,
        0 <= frame_h,
    ensures
        region_of(x, y, width, height, frame_w as int, frame_h as int) is None <==> width == 0
            || height == 0 || x >= frame_w || y >= frame_h || frame_w == 0 || frame_h == 0,
        region_of(x, y, width, height, frame_w as int, frame_h as int) matches Some(region) ==> {
            &&& x >= 0 ==> region.x == x
            &&& x < 0 ==> region.x == 0
            &&& y >= 0 ==> region.y == y
            &&& y < 0 ==> region.y == 0
            &&& region.width == width || region.width < width && region.x + region.width == frame_w
            &&& region.height == height || region.height < height && region.y + region.height
                == frame_h
        },
{
}

/// A value that appears for the first time gets the next of the new colors, and the one
/// after it is then next: no two new values share an index. A value that has a color keeps
/// it, the background gets none, and no other value's color changes.
pub proof fn law_each_new_segment_takes_the_next_color(
    palette: Palette,
    value: int,
    fresh: Seq<u32>,
    other: int,
)
    requires
        palette.table.len() == 256,
        0 <= other < 256,
        other != value,
    ensures
        palette.seeing(value, fresh).table[other] == palette.table[other],
        0 < value < 256 && palette.table[value] is None ==> {
            let after = palette.seeing(value, fresh);
            &&& after.table[value] == Some(fresh[palette.made as int])
            &&& after.made == palette.made + 1
            &&& palette.next < u64::MAX ==> after.next == palette.next + 1
        },
        !(0 < value < 256) || palette.table[value] is Some ==> palette.seeing(value, fresh)
            == palette,
{
}

/// The new colors are made for consecutive indices.
pub proof fn law_new_colors_are_made_in_turn<G: Fn(u64, u32) -> u32>(
    generate: G,
    index: u64,
    hint: u32,
    fresh: Seq<u32>,
    k: int,
)
    requires
        generated(generate, index, hint, fresh),
        0 <= k < fresh.len(),
        index + k <= u64::MAX,
    ensures
        generate.ensures(((index + k) as u64, hint), fresh[k]),
{
}

/// A layer claims the pixels that it covers, as a soft hint.
pub proof fn law_layers_claim_what_they_cover(layer: MaskLayer, priority: i32, x: int, y: int)
    requires
        0 <= layer.region.x,
        0 <= layer.region.y,
        layer.region.x + layer.region.width <= i32::MAX,
        layer.region.y + layer.region.height <= i32::MAX,
    ensures
        layer_claim(layer, priority).rect.covers(x, y) <==> layer.region.x <= x < layer.region.x
            + layer.region.width && layer.region.y <= y < layer.region.y + layer.region.height,
        layer_claim(layer, priority).kind == crate::coordination::ClaimKind::Avoid,
        layer_claim(layer, priority).priority == priority,
        layer_claim(layer, priority).owner == OVERLAY_OWNER@,
{
}

/// The masks that are drawn are those that have pixels and a part of the frame to lie on, in
/// the order of the list.
pub proof fn law_visible_masks_are_drawn_in_order(
    segmentations: Seq<Segmentation>,
    frame_w: i32,
    frame_h: i32,
    i: int,
)
    requires
        0 <= frame_w,
        0 <= frame_h,
        0 <= i < segmentations.len(),
    ensures
        drawn_masks(segmentations, frame_w as int, frame_h as int).contains(i) <==> {
            let s = segmentations[i];
            &&& s.mask.width > 0 && s.mask.height > 0
            &&& s.width > 0 && s.height > 0
            &&& s.x < frame_w && s.y < frame_h
            &&& 0 < frame_w && 0 < frame_h
        },
        forall|a: int, b: int|
            0 <= a < b < drawn_masks(segmentations, frame_w as int, frame_h as int).len()
                ==> #[trigger] drawn_masks(segmentations, frame_w as int, frame_h as int)[a]
                < #[trigger] drawn_masks(segmentations, frame_w as int, frame_h as int)[b],
    decreases segmentations.len(),
{
    let rest = segmentations.drop_last();
    let last = segmentations.len() - 1;
    let before = drawn_masks(rest, frame_w as int, frame_h as int);
    let all = drawn_masks(segmentations, frame_w as int, frame_h as int);
    lemma_drawn_masks_in_range(rest, frame_w as int, frame_h as int);
    let s = segmentations[i];
    law_mask_regions_fill_what_fits(
        s.x as int,
        s.y as int,
        s.width as int,
        s.height as int,
        frame_w,
        frame_h,
    );
    if rest.len() > 0 {
        law_visible_masks_are_drawn_in_order(rest, frame_w, frame_h, if i < last {
            i
        } else {
            0
        });
    }
    if i < last {
        assert(rest[i] == segmentations[i]);
        if before.contains(i) {
            let k = choose|k: int| 0 <= k < before.len() && before[k] == i;
            assert(all[k] == i);
        }
        if all.contains(i) {
            let k = choose|k: int| 0 <= k < all.len() && all[k] == i;
            assert(before[k] == i);
        }
    } else {
        if s.region(frame_w as int, frame_h as int) is Some {
            assert(all[before.len() as int] == i);
        } else if all.contains(i) {
            let k = choose|k: int| 0 <= k < all.len() && all[k] == i;
            assert(before[k] < rest.len());
        }
    }
}

/// A pixel is written as blue, green, red and alpha. Its colors are scaled by the opacity, as
/// a part of 255, to the nearest.
pub proof fn law_components_are_scaled_to_the_nearest(rgb: u32, alpha: u8)
    ensures
        ({
            let bytes = pixel_bytes(rgb, alpha);
            &&& bytes.len() == 4
            &&& -127 <= rgb as int % 0x100 * alpha - 255 * bytes[0] <= 127
            &&& -127 <= rgb as int / 0x100 % 0x100 * alpha - 255 * bytes[1] <= 127
            &&& -127 <= rgb as int / 0x1_0000 % 0x100 * alpha - 255 * bytes[2] <= 127
            &&& bytes[3] == alpha
        }),
{
    lemma_nearest_part(rgb as int % 0x100, alpha as int);
    lemma_nearest_part(rgb as int / 0x100 % 0x100, alpha as int);
    lemma_nearest_part(rgb as int / 0x1_0000 % 0x100, alpha as int);
}

proof fn lemma_nearest_part(component: int, alpha: int)
    requires
        0 <= component <= 255,
        0 <= alpha <= 255,
    ensures
        0 <= premultiplied(component, alpha) <= 255,
        -127 <= component * alpha - 255 * premultiplied(component, alpha) <= 127,
{
    assert(0 <= component * alpha <= 255 * 255) by (nonlinear_arith)
        requires
            0 <= component <= 255,
            0 <= alpha <= 255,
    ;
}

/// The classes of a segmentation are named by the first classification in an n-to-n relation
/// with it; only where there is none, by the first that it relates to.
pub proof fn law_n_to_n_classifications_come_first(
    n_to_n: Seq<Vec<String>>,
    relate_to: Seq<Vec<String>>,
)
    ensures
        n_to_n.len() > 0 ==> naming_classification(n_to_n, relate_to) == Some(n_to_n[0]),
        n_to_n.len() == 0 && relate_to.len() > 0 ==> naming_classification(n_to_n, relate_to)
            == Some(relate_to[0]),
        n_to_n.len() == 0 && relate_to.len() == 0 ==> naming_classification(
            n_to_n,
            relate_to,
        ) is None,
{
}

/// A setting that is missing or names nothing selects nothing in particular, so that every
/// class shows; any other selects just what it names.
pub proof fn law_selections_that_name_nothing_are_none(text: Seq<char>)
    ensures
        selection_of(None) is None,
        (selection_of(Some(text)) is None) == (crate::text::names_in(text).len() == 0),
        selection_of(Some(text)) matches Some(names) ==> names == crate::text::names_in(text)
            && names.len() > 0,
{
}

/// Values get their colors in the order in which they appear on the canvas, row by row.
pub proof fn law_values_are_seen_in_turn(
    palette: Palette,
    values: Seq<int>,
    value: int,
    fresh: Seq<u32>,
)
    ensures
        palette.seeing_all(Seq::empty(), fresh) == palette,
        palette.seeing_all(values.push(value), fresh) == palette.seeing_all(values, fresh).seeing(
            value,
            fresh,
        ),
{
    assert(values.push(value).drop_last() =~= values);
}

/// A layer lies where its mask does in the frame, is as large as that part of it, and shows
/// the mask in colors that go on from those of the layer before.
pub proof fn law_layers_lie_where_their_masks_do<G: Fn(u64, u32) -> u32>(
    layers: Seq<MaskLayer>,
    segmentations: Seq<Segmentation>,
    selected: Option<Seq<Seq<char>>>,
    frame: (i32, i32),
    stages: Seq<Palette>,
    generate: G,
    hint: u32,
    k: int,
)
    requires
        are_layers(
            layers,
            segmentations,
            selected,
            (frame.0 as int, frame.1 as int),
            stages,
            generate,
            hint,
        ),
        0 <= frame.0,
        0 <= frame.1,
        0 <= k < layers.len(),
    ensures
        layers.len() == drawn_masks(segmentations, frame.0 as int, frame.1 as int).len(),
        ({
            let region = layers[k].region;
            let s = segmentations[drawn_masks(segmentations, frame.0 as int, frame.1 as int)[k]];
            &&& s.x >= 0 ==> region.x == s.x
            &&& s.x < 0 ==> region.x == 0
            &&& s.y >= 0 ==> region.y == s.y
            &&& s.y < 0 ==> region.y == 0
            &&& region.width == s.width || region.width < s.width && region.x + region.width
                == frame.0
            &&& region.height == s.height || region.height < s.height && region.y + region.height
                == frame.1
            &&& layers[k].canvas@.len() == 4 * (region.width * region.height)
            &&& colored(
                generate,
                hint,
                stages[k],
                stages[k + 1],
                shown_values(
                    s.mask,
                    s.filter(selected),
                    region.width as int,
                    region.height as int,
                ),
                layers[k].canvas@,
            )
        }),
{
    let s = segmentations[drawn_masks(segmentations, frame.0 as int, frame.1 as int)[k]];
    let region = layers[k].region;
    assert(is_layer(
        layers[k],
        s,
        selected,
        (frame.0 as int, frame.1 as int),
        stages[k],
        stages[k + 1],
        generate,
        hint,
    ));
    law_mask_regions_fill_what_fits(
        s.x as int,
        s.y as int,
        s.width as int,
        s.height as int,
        frame.0,
        frame.1,
    );
    assert(0 <= region.width * region.height) by (nonlinear_arith)
        requires
            0 <= region.width,
            0 <= region.height,
    ;
}

} // verus!
