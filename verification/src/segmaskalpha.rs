//! Segmentation masks as a frame's alpha channel.

use vstd::prelude::*;

use crate::packed::VideoFormat;
use crate::segmentationoverlay::{
    cached_mask_filter, clone_names, is_visible, update_selected_type_cache, GrayMask,
    Segmentation, State,
};

verus! {

/// The largest radius whose sums fit in a `u32`.
pub const RADIUS_LIMIT: usize = 8_421_503;

/// What a moving average of the given radius takes as the `j`-th value of a line: past its
/// end the last value goes on, once the first `radius` values are through.
pub open spec fn tap(line: Seq<u8>, radius: int, j: int) -> int {
    if j < radius {
        if j < line.len() {
            line[j] as int
        } else {
            0
        }
    } else {
        line[crate::geometry::int_min(j, line.len() - 1)] as int
    }
}

/// The sum of the values from `lo` up to `hi`.
pub open spec fn tap_sum(line: Seq<u8>, radius: int, lo: int, hi: int) -> int
    decreases hi - lo,
{
    if hi <= lo {
        0
    } else {
        tap_sum(line, radius, lo, hi - 1) + tap(line, radius, hi - 1)
    }
}

/// The moving average of a line at `x`. The window is as wide everywhere, but what it
/// covers before the line's beginning counts as zero.
pub open spec fn averaged(line: Seq<u8>, radius: int, x: int) -> int {
    tap_sum(line, radius, crate::geometry::int_max(x - radius, 0), x + radius + 1) / (2 * radius
        + 1)
}

proof fn lemma_tap_sum_bound(line: Seq<u8>, radius: int, lo: int, hi: int)
    requires
        0 <= lo <= hi,
        0 < line.len(),
        0 <= radius,
    ensures
        0 <= tap_sum(line, radius, lo, hi) <= 255 * (hi - lo),
    decreases hi - lo,
{
    if hi > lo {
        lemma_tap_sum_bound(line, radius, lo, hi - 1);
    }
}

proof fn lemma_tap_sum_drops_first(line: Seq<u8>, radius: int, lo: int, hi: int)
    requires
        lo < hi,
    ensures
        tap_sum(line, radius, lo, hi) == tap(line, radius, lo) + tap_sum(
            line,
            radius,
            lo + 1,
            hi,
        ),
    decreases hi - lo,
{
    if hi == lo + 1 {
        assert(tap_sum(line, radius, lo, lo) == 0);
        assert(tap_sum(line, radius, lo + 1, hi) == 0);
    } else {
        lemma_tap_sum_drops_first(line, radius, lo, hi - 1);
    }
}

/// Values past the line's end do not count while the window fills.
proof fn lemma_tap_sum_past_end(line: Seq<u8>, radius: int, hi: int)
    requires
        line.len() <= hi <= radius,
    ensures
        tap_sum(line, radius, 0, hi) == tap_sum(line, radius, 0, line.len() as int),
    decreases hi,
{
    if hi > line.len() {
        lemma_tap_sum_past_end(line, radius, hi - 1);
    }
}

/// The moving average of a byte line is a byte.
proof fn lemma_average_is_a_byte(line: Seq<u8>, radius: int, x: int)
    requires
        0 <= x < line.len(),
        0 <= radius,
    ensures
        0 <= averaged(line, radius, x) <= 255,
{
    let lo = crate::geometry::int_max(x - radius, 0);
    let hi = x + radius + 1;
    lemma_tap_sum_bound(line, radius, lo, hi);
    let sum = tap_sum(line, radius, lo, hi);
    let window = 2 * radius + 1;
    assert(0 <= sum / window <= 255) by (nonlinear_arith)
        requires
            0 <= sum <= 255 * window,
            1 <= window,
    ;
}

/// The bytes of `map` at `start` and every `step` behind it.
pub open spec fn line_of(map: Seq<u8>, start: int, step: int, n: int) -> Seq<u8> {
    Seq::new(n as nat, |k: int| map[start + k * step])
}

/// The line lies in the map.
pub open spec fn line_fits(len: int, start: int, step: int, n: int) -> bool {
    forall|k: int| 0 <= k < n ==> 0 <= #[trigger] (start + k * step) < len
}

/// Write the moving average of a line of `source` into the same line of `target`.
fn blur_line(
    source: &Vec<u8>,
    target: &mut Vec<u8>,
    start: usize,
    step: usize,
    n: usize,
    radius: usize,
)
    requires
        0 < n,
        radius <= RADIUS_LIMIT,
        n + radius <= usize::MAX,
        source.len() == old(target).len(),
        line_fits(source.len() as int, start as int, step as int, n as int),
        0 < step,
    ensures
        final(target)@.len() == old(target)@.len(),
        forall|k: int|
            0 <= k < n ==> #[trigger] final(target)@[start + k * step] == averaged(
                line_of(source@, start as int, step as int, n as int),
                radius as int,
                k,
            ),
        forall|i: int|
            0 <= i < old(target)@.len() && (forall|k: int|
                0 <= k < n ==> i != #[trigger] (start + k * step)) ==> #[trigger] final(target)@[i]
                == old(target)@[i],
{
    let ghost line = line_of(source@, start as int, step as int, n as int);
    let ghost r = radius as int;
    let window: u32 = (radius * 2 + 1) as u32;
    let mut sum: u32 = 0;
    let first: usize = if radius < n {
        radius
    } else {
        n
    };
    let mut j: usize = 0;
    while j < first
        invariant
            j <= first <= radius,
            first <= n,
            0 < n,
            r == radius <= RADIUS_LIMIT,
            line == line_of(source@, start as int, step as int, n as int),
            line_fits(source.len() as int, start as int, step as int, n as int),
            sum == tap_sum(line, r, 0, j as int),
            sum <= 255 * j,
        decreases first - j,
    {
        assert(0 <= start + j * step < source.len());
        assert(0 <= j * step) by (nonlinear_arith)
            requires
                0 <= j,
                0 <= step,
        ;
        sum = sum + source[start + j * step] as u32;
        assert(line[j as int] == source@[start + j * step]);
        j = j + 1;
    }
    proof {
        if n < radius {
            lemma_tap_sum_past_end(line, r, r);
        }
    }
    let mut x: usize = 0;
    while x < n
        invariant
            x <= n,
            r == radius <= RADIUS_LIMIT,
            n + radius <= usize::MAX,
            0 < step,
            window == 2 * radius + 1,
            line == line_of(source@, start as int, step as int, n as int),
            line_fits(source.len() as int, start as int, step as int, n as int),
            source.len() == old(target).len(),
            target@.len() == old(target)@.len(),
            sum == tap_sum(line, r, crate::geometry::int_max(x - 1 - r, 0), x + r),
            forall|k: int|
                0 <= k < x ==> #[trigger] target@[start + k * step] == averaged(line, r, k),
            forall|i: int|
                0 <= i < target@.len() && (forall|k: int|
                    0 <= k < n ==> i != #[trigger] (start + k * step)) ==> #[trigger] target@[i]
                    == old(target)@[i],
        decreases n - x,
    {
        let ghost lo: int = crate::geometry::int_max(x - 1 - r, 0);
        let last: usize = if x + radius < n - 1 {
            x + radius
        } else {
            n - 1
        };
        assert(0 <= start + last * step < source.len());
        assert(0 <= last * step) by (nonlinear_arith)
            requires
                0 <= last,
                0 <= step,
        ;
        proof {
            lemma_tap_sum_bound(line, r, lo, x + r);
            assert(line[last as int] == source@[start + last * step]);
        }
        sum = sum + source[start + last * step] as u32;
        assert(sum == tap_sum(line, r, lo, x + r + 1));
        if x > radius {
            let gone: usize = x - radius - 1;
            assert(0 <= start + gone * step < source.len());
            assert(0 <= gone * step) by (nonlinear_arith)
                requires
                    0 <= gone,
                    0 <= step,
            ;
            proof {
                lemma_tap_sum_drops_first(line, r, lo, x + r + 1);
                lemma_tap_sum_bound(line, r, lo + 1, x + r + 1);
                assert(line[gone as int] == source@[start + gone * step]);
            }
            sum = sum - source[start + gone * step] as u32;
        }
        assert(0 <= start + x * step < source.len());
        assert(0 <= x * step) by (nonlinear_arith)
            requires
                0 <= x,
                0 <= step,
        ;
        proof {
            lemma_average_is_a_byte(line, r, x as int);
        }
        let average: u8 = (sum / window) as u8;
        let ghost before = target@;
        target.set(start + x * step, average);
        proof {
            assert forall|k: int| 0 <= k < x + 1 implies #[trigger] target@[start + k * step]
                == averaged(line, r, k) by {
                if k < x {
                    assert(k * step < x * step) by (nonlinear_arith)
                        requires
                            k < x,
                            0 < step,
                    ;
                    assert(before[start + k * step] == averaged(line, r, k));
                }
            }
            assert forall|i: int|
                0 <= i < target@.len() && (forall|k: int|
                    0 <= k < n ==> i != #[trigger] (start + k * step)) implies #[trigger] target@[i]
                == old(target)@[i] by {
                assert(i != start + x * step);
                assert(before[i] == old(target)@[i]);
            }
        }
        x = x + 1;
    }
}

/// A map of `w` by `h` bytes with every row averaged; zero behind it.
pub open spec fn smeared(map: Seq<u8>, w: int, h: int, radius: int) -> Seq<u8> {
    Seq::new(
        map.len(),
        |i: int|
            if i < w * h {
                averaged(line_of(map, (i / w) * w, 1, w), radius, i % w) as u8
            } else {
                0
            },
    )
}

/// A map of `w` by `h` bytes with every row averaged, and then every column.
pub open spec fn blurred(map: Seq<u8>, w: int, h: int, radius: int) -> Seq<u8> {
    Seq::new(
        map.len(),
        |i: int|
            if i < w * h {
                averaged(line_of(smeared(map, w, h, radius), i % w, w, h), radius, i / w) as u8
            } else {
                map[i]
            },
    )
}

/// Set `map` to `len` zeros.
fn zero_map(map: &mut Vec<u8>, len: usize)
    ensures
        final(map)@ == Seq::new(len as nat, |i: int| 0u8),
{
    map.clear();
    let mut i: usize = 0;
    while i < len
        invariant
            i <= len,
            map@ == Seq::new(i as nat, |k: int| 0u8),
        decreases len - i,
    {
        map.push(0);
        i = i + 1;
        assert(map@ =~= Seq::new(i as nat, |k: int| 0u8));
    }
}

/// A byte of a map, by its column and row.
proof fn lemma_place(x: int, y: int, w: int, h: int)
    requires
        0 <= x < w,
        0 <= y < h,
    ensures
        0 <= y * w + x < w * h,
        (y * w + x) % w == x,
        (y * w + x) / w == y,
{
    assert(0 <= y * w && y * w + x < w * h) by (nonlinear_arith)
        requires
            0 <= x < w,
            0 <= y < h,
    ;
    vstd::arithmetic::div_mod::lemma_fundamental_div_mod_converse(y * w + x, w, y, x);
}

/// The column and row of a byte.
proof fn lemma_column_and_row(i: int, w: int, h: int)
    requires
        0 <= i < w * h,
        0 < w,
    ensures
        0 <= i % w < w,
        0 <= i / w < h,
        i == (i / w) * w + i % w,
{
    vstd::arithmetic::div_mod::lemma_fundamental_div_mod(i, w);
    vstd::arithmetic::div_mod::lemma_div_is_ordered(0, i, w);
    vstd::arithmetic::div_mod::lemma_multiply_divide_lt(i, w, h);
    vstd::arithmetic::div_mod::lemma_mod_bound(i, w);
    assert(w * (i / w) == (i / w) * w) by (nonlinear_arith);
}

/// Average every row of `alpha` into `tmp`.
fn blur_rows(alpha: &Vec<u8>, tmp: &mut Vec<u8>, w: usize, h: usize, radius: usize)
    requires
        0 < w,
        0 < h,
        radius <= RADIUS_LIMIT,
        w + radius <= usize::MAX,
        w * h <= alpha.len(),
        old(tmp).len() == alpha.len(),
        forall|i: int| w * h <= i < alpha.len() ==> old(tmp)@[i] == 0,
    ensures
        final(tmp)@ == smeared(alpha@, w as int, h as int, radius as int),
{
    let mut y: usize = 0;
    assert(0 * w == 0);
    while y < h
        invariant
            y <= h,
            0 < w,
            0 < h,
            radius <= RADIUS_LIMIT,
            w + radius <= usize::MAX,
            w * h <= alpha.len(),
            tmp.len() == alpha.len(),
            forall|i: int| w * h <= i < alpha.len() ==> tmp@[i] == 0,
            forall|i: int|
                0 <= i < y * w ==> #[trigger] tmp@[i] == averaged(
                    line_of(alpha@, (i / (w as int)) * w, 1, w as int),
                    radius as int,
                    i % (w as int),
                ),
        decreases h - y,
    {
        let ghost start: int = y * w;
        assert((y + 1) * w == y * w + w) by (nonlinear_arith);
        assert(0 <= y * w && (y + 1) * w <= w * h) by (nonlinear_arith)
            requires
                0 <= y,
                y + 1 <= h,
                0 <= w,
        ;
        assert(line_fits(alpha.len() as int, start, 1, w as int));
        let ghost before = tmp@;
        blur_line(alpha, tmp, y * w, 1, w, radius);
        proof {
            assert forall|i: int| 0 <= i < (y + 1) * w implies #[trigger] tmp@[i] == averaged(
                line_of(alpha@, (i / (w as int)) * w, 1, w as int),
                radius as int,
                i % (w as int),
            ) by {
                if i < start {
                    assert forall|k: int| 0 <= k < w implies i != #[trigger] (start + k * 1) by {}
                    assert(tmp@[i] == before[i]);
                } else {
                    let x = i - start;
                    lemma_place(x, y as int, w as int, h as int);
                    assert(tmp@[start + x * 1] == averaged(
                        line_of(alpha@, start, 1, w as int),
                        radius as int,
                        x,
                    ));
                }
            }
            assert forall|i: int| w * h <= i < alpha.len() implies tmp@[i] == 0 by {
                assert forall|k: int| 0 <= k < w implies i != #[trigger] (start + k * 1) by {}
                assert(tmp@[i] == before[i]);
            }
        }
        y = y + 1;
    }
    assert(h * w == w * h) by (nonlinear_arith);
    assert(tmp@ =~= smeared(alpha@, w as int, h as int, radius as int));
}

/// Average every column of `tmp` into `alpha`.
fn blur_columns(alpha: &mut Vec<u8>, tmp: &Vec<u8>, w: usize, h: usize, radius: usize)
    requires
        0 < w,
        0 < h,
        radius <= RADIUS_LIMIT,
        h + radius <= usize::MAX,
        w * h <= tmp.len(),
        old(alpha).len() == tmp.len(),
    ensures
        final(alpha)@ == Seq::new(
            old(alpha)@.len(),
            |i: int|
                if i < w * h {
                    averaged(
                        line_of(tmp@, i % (w as int), w as int, h as int),
                        radius as int,
                        i / (w as int),
                    ) as u8
                } else {
                    old(alpha)@[i]
                },
        ),
{
    let mut x: usize = 0;
    while x < w
        invariant
            x <= w,
            0 < w,
            0 < h,
            radius <= RADIUS_LIMIT,
            h + radius <= usize::MAX,
            w * h <= tmp.len(),
            alpha.len() == tmp.len(),
            old(alpha).len() == tmp.len(),
            forall|i: int| w * h <= i < tmp.len() ==> alpha@[i] == old(alpha)@[i],
            forall|i: int|
                0 <= i < w * h && i % (w as int) < x ==> #[trigger] alpha@[i] == averaged(
                    line_of(tmp@, i % (w as int), w as int, h as int),
                    radius as int,
                    i / (w as int),
                ),
        decreases w - x,
    {
        assert forall|k: int| 0 <= k < h implies 0 <= #[trigger] (x + k * w) < w * h by {
            lemma_place(x as int, k, w as int, h as int);
        }
        let ghost before = alpha@;
        blur_line(tmp, alpha, x, w, h, radius);
        proof {
            assert forall|i: int| 0 <= i < w * h && i % (w as int) < x + 1 implies #[trigger] alpha@[i]
                == averaged(
                line_of(tmp@, i % (w as int), w as int, h as int),
                radius as int,
                i / (w as int),
            ) by {
                lemma_column_and_row(i, w as int, h as int);
                if i % (w as int) == x {
                    let k = i / (w as int);
                    assert(alpha@[x + k * w] == averaged(
                        line_of(tmp@, x as int, w as int, h as int),
                        radius as int,
                        k,
                    ));
                } else {
                    assert forall|k: int| 0 <= k < h implies i != #[trigger] (x + k * w) by {
                        lemma_place(x as int, k, w as int, h as int);
                    }
                    assert(alpha@[i] == before[i]);
                }
            }
            assert forall|i: int| w * h <= i < tmp.len() implies alpha@[i] == old(alpha)@[i] by {
                assert forall|k: int| 0 <= k < h implies i != #[trigger] (x + k * w) by {
                    lemma_place(x as int, k, w as int, h as int);
                }
                assert(alpha@[i] == before[i]);
            }
        }
        x = x + 1;
    }
    proof {
        assert forall|i: int| 0 <= i < w * h implies #[trigger] alpha@[i] == averaged(
            line_of(tmp@, i % (w as int), w as int, h as int),
            radius as int,
            i / (w as int),
        ) by {
            lemma_column_and_row(i, w as int, h as int);
        }
    }
}

/// Separable box blur of `alpha` (a map of `w` by `h` bytes) with the given radius; two
/// passes (horizontal then vertical) of a moving average. `tmp` is a reusable
/// scratch buffer.
pub fn box_blur(alpha: &mut Vec<u8>, tmp: &mut Vec<u8>, w: usize, h: usize, radius: usize)
    requires
        radius <= RADIUS_LIMIT,
        w + radius <= usize::MAX,
        h + radius <= usize::MAX,
        w * h <= old(alpha).len(),
    ensures
        radius == 0 ==> *final(alpha) == *old(alpha) && *final(tmp) == *old(tmp),
        radius > 0 ==> final(alpha)@ == blurred(
            old(alpha)@,
            w as int,
            h as int,
            radius as int,
        ),
        radius > 0 ==> final(tmp)@ == smeared(old(alpha)@, w as int, h as int, radius as int),
{
    if radius == 0 {
        return;
    }
    let len: usize = alpha.len();
    zero_map(tmp, len);
    if w == 0 || h == 0 {
        assert(w * h == 0) by (nonlinear_arith)
            requires
                w == 0 || h == 0,
        ;
        assert(alpha@ =~= blurred(old(alpha)@, w as int, h as int, radius as int));
        assert(tmp@ =~= smeared(old(alpha)@, w as int, h as int, radius as int));
        return;
    }
    blur_rows(alpha, tmp, w, h, radius);
    blur_columns(alpha, tmp, w, h, radius);
    assert(alpha@ =~= blurred(old(alpha)@, w as int, h as int, radius as int));
}

/// A map of the objects in a mask, at the mask's resolution: 255 on an object, 0 elsewhere.
#[derive(Debug)]
pub struct ObjectMap {
    pub data: Vec<u8>,
    pub width: usize,
    pub height: usize,
}

impl ObjectMap {
    /// The map shows the visible values of a mask.
    pub open spec fn shows(self, mask: GrayMask, filter: Option<Seq<bool>>) -> bool {
        &&& self.width == mask.width
        &&& self.height == mask.height
        &&& self.data@ == Seq::new(
            (mask.width * mask.height) as nat,
            |i: int|
                if crate::segmentationoverlay::passes(
                    filter,
                    mask.value(i % (mask.width as int), i / (mask.width as int)),
                ) {
                    255u8
                } else {
                    0u8
                },
        )
    }
}

/// The map of the objects in a mask: 255 where the mask's value is visible.
pub fn object_map(mask: &GrayMask, filter: &Option<Vec<bool>>) -> (r: ObjectMap)
    requires
        mask.sound(),
        !mask.vacant(),
        mask.width * mask.height <= usize::MAX,
    ensures
        r.shows(*mask, crate::segmentationoverlay::filter_view(*filter)),
{
    let w: usize = mask.width;
    let h: usize = mask.height;
    let ghost flags = crate::segmentationoverlay::filter_view(*filter);
    let ghost whole = Seq::new(
        (w * h) as nat,
        |i: int|
            if crate::segmentationoverlay::passes(
                flags,
                mask.value(i % (w as int), i / (w as int)),
            ) {
                255u8
            } else {
                0u8
            },
    );
    let mut data: Vec<u8> = Vec::new();
    let mut y: usize = 0;
    assert(0 * w == 0);
    assert(data@ =~= whole.take(0));
    while y < h
        invariant
            y <= h,
            w == mask.width,
            h == mask.height,
            mask.sound(),
            !mask.vacant(),
            flags == crate::segmentationoverlay::filter_view(*filter),
            whole == Seq::new(
                (w * h) as nat,
                |i: int|
                    if crate::segmentationoverlay::passes(
                        flags,
                        mask.value(i % (w as int), i / (w as int)),
                    ) {
                        255u8
                    } else {
                        0u8
                    },
            ),
            data@ == whole.take(y * w),
        decreases h - y,
    {
        let mut x: usize = 0;
        while x < w
            invariant
                x <= w,
                y < h,
                w == mask.width,
                h == mask.height,
                mask.sound(),
                !mask.vacant(),
                flags == crate::segmentationoverlay::filter_view(*filter),
                whole == Seq::new(
                    (w * h) as nat,
                    |i: int|
                        if crate::segmentationoverlay::passes(
                            flags,
                            mask.value(i % (w as int), i / (w as int)),
                        ) {
                            255u8
                        } else {
                            0u8
                        },
                ),
                data@ == whole.take(y * w + x),
            decreases w - x,
        {
            proof {
                lemma_place(x as int, y as int, w as int, h as int);
            }
            let value: u8 = mask.value_at(x, y);
            if is_visible(filter, value) {
                data.push(255);
            } else {
                data.push(0);
            }
            assert(data@ =~= whole.take(y * w + x + 1));
            x = x + 1;
        }
        assert(y * w + w == (y + 1) * w) by (nonlinear_arith);
        y = y + 1;
    }
    assert(h * w == w * h) by (nonlinear_arith);
    assert(whole.take(y * w) =~= whole);
    ObjectMap { data, width: w, height: h }
}

/// Where in a mask's area of the frame a sample is taken: the offset from the area's corner,
/// and the area's size.
#[derive(Debug, Clone, Copy, PartialEq, Eq, Structural)]
pub struct SamplePoint {
    pub x: i32,
    pub y: i32,
    pub width: u32,
    pub height: u32,
}

/// The mask has pixels, and so has its area.
pub open spec fn usable(segmentation: Segmentation) -> bool {
    segmentation.width != 0 && segmentation.height != 0 && !segmentation.mask.vacant()
}

/// The segmentation's area covers a pixel of the frame.
pub open spec fn covers(segmentation: Segmentation, x: int, y: int) -> bool {
    &&& segmentation.x <= x < segmentation.x + (segmentation.width as i32)
    &&& segmentation.y <= y < segmentation.y + (segmentation.height as i32)
}

/// The sample that a segmentation gives for a pixel of the frame.
pub open spec fn point_of(segmentation: Segmentation, x: int, y: int) -> SamplePoint {
    SamplePoint {
        x: (x - segmentation.x) as i32,
        y: (y - segmentation.y) as i32,
        width: segmentation.width,
        height: segmentation.height,
    }
}

/// A pixel of the alpha map takes the larger of its value and the sample.
pub open spec fn raised<S: Fn(&ObjectMap, SamplePoint) -> u8>(
    sample: S,
    objects: ObjectMap,
    point: SamplePoint,
    before: u8,
    after: u8,
) -> bool {
    exists|a: u8|
        #[trigger] sample.ensures((&objects, point), a) && after == (if a > before {
            a
        } else {
            before
        })
}

/// The objects of a segmentation are united with an alpha map: every covered pixel takes the
/// larger of its value and the objects' sample, the others stay.
pub open spec fn united<S: Fn(&ObjectMap, SamplePoint) -> u8>(
    sample: S,
    objects: ObjectMap,
    segmentation: Segmentation,
    frame_w: int,
    frame_h: int,
    before: Seq<u8>,
    after: Seq<u8>,
) -> bool {
    &&& after.len() == before.len()
    &&& forall|i: int|
        #![trigger after[i]]
        0 <= i < frame_w * frame_h ==> if covers(segmentation, i % frame_w, i / frame_w) {
            raised(
                sample,
                objects,
                point_of(segmentation, i % frame_w, i / frame_w),
                before[i],
                after[i],
            )
        } else {
            after[i] == before[i]
        }
}

/// The segmentation's extent can be computed, and its mask be read.
pub open spec fn extent_fits(segmentation: Segmentation) -> bool {
    &&& segmentation.mask.sound()
    &&& segmentation.mask.width * segmentation.mask.height <= usize::MAX
    &&& i32::MIN <= segmentation.x + (segmentation.width as i32) <= i32::MAX
    &&& i32::MIN <= segmentation.y + (segmentation.height as i32) <= i32::MAX
}

/// Upscale the objects of a segmentation into the part of the frame that it covers, taking
/// the larger value so that overlapping objects unite.
fn unite<S: Fn(&ObjectMap, SamplePoint) -> u8>(
    alpha: &mut Vec<u8>,
    objects: &ObjectMap,
    segmentation: &Segmentation,
    frame_w: usize,
    frame_h: usize,
    sample: &S,
)
    requires
        frame_w <= i32::MAX,
        frame_h <= i32::MAX,
        old(alpha).len() == frame_w * frame_h,
        extent_fits(*segmentation),
        forall|point: SamplePoint| sample.requires((objects, point)),
    ensures
        united(
            *sample,
            *objects,
            *segmentation,
            frame_w as int,
            frame_h as int,
            old(alpha)@,
            final(alpha)@,
        ),
{
    let ofx: i32 = segmentation.x;
    let ofy: i32 = segmentation.y;
    let start_x: i32 = if ofx > 0 {
        ofx
    } else {
        0
    };
    let start_y: i32 = if ofy > 0 {
        ofy
    } else {
        0
    };
    let reach_x: i32 = ofx + segmentation.width as i32;
    let reach_y: i32 = ofy + segmentation.height as i32;
    let end_x: i32 = if reach_x < frame_w as i32 {
        reach_x
    } else {
        frame_w as i32
    };
    let end_y: i32 = if reach_y < frame_h as i32 {
        reach_y
    } else {
        frame_h as i32
    };
    let ghost w = frame_w as int;
    let ghost h = frame_h as int;
    let ghost seg = *segmentation;
    let mut fy: i32 = start_y;
    while fy < end_y
        invariant
            0 <= start_y <= fy,
            fy <= end_y || fy == start_y,
            0 <= start_x,
            end_x <= frame_w <= i32::MAX,
            end_y <= frame_h <= i32::MAX,
            w == frame_w,
            h == frame_h,
            seg == *segmentation,
            ofx == seg.x,
            ofy == seg.y,
            seg.x <= start_x,
            seg.y <= start_y,
            end_x <= seg.x + (seg.width as i32) <= i32::MAX,
            end_y <= seg.y + (seg.height as i32) <= i32::MAX,
            forall|x: int, y: int|
                0 <= x < w && 0 <= y < h ==> #[trigger] covers(seg, x, y) == (start_x <= x < end_x
                    && start_y <= y < end_y),
            forall|point: SamplePoint| sample.requires((objects, point)),
            alpha.len() == w * h,
            old(alpha)@.len() == w * h,
            forall|i: int|
                #![trigger alpha@[i]]
                0 <= i < w * h ==> if covers(seg, i % w, i / w) && i / w < fy {
                    raised(
                        *sample,
                        *objects,
                        point_of(seg, i % w, i / w),
                        old(alpha)@[i],
                        alpha@[i],
                    )
                } else {
                    alpha@[i] == old(alpha)@[i]
                },
        decreases end_y - fy,
    {
        let mut fx: i32 = start_x;
        while fx < end_x
            invariant
                0 <= start_y <= fy < end_y,
                0 <= start_x <= fx,
                fx <= end_x || fx == start_x,
                end_x <= frame_w <= i32::MAX,
                end_y <= frame_h <= i32::MAX,
                w == frame_w,
                h == frame_h,
                seg == *segmentation,
                ofx == seg.x,
                ofy == seg.y,
                seg.x <= start_x,
                seg.y <= start_y,
                end_x <= seg.x + (seg.width as i32) <= i32::MAX,
                end_y <= seg.y + (seg.height as i32) <= i32::MAX,
                forall|x: int, y: int|
                    0 <= x < w && 0 <= y < h ==> #[trigger] covers(seg, x, y) == (start_x <= x
                        < end_x && start_y <= y < end_y),
                forall|point: SamplePoint| sample.requires((objects, point)),
                alpha.len() == w * h,
                old(alpha)@.len() == w * h,
                forall|i: int|
                    #![trigger alpha@[i]]
                    0 <= i < w * h ==> if covers(seg, i % w, i / w) && (i / w < fy || i / w == fy
                        && i % w < fx) {
                        raised(
                            *sample,
                            *objects,
                            point_of(seg, i % w, i / w),
                            old(alpha)@[i],
                            alpha@[i],
                        )
                    } else {
                        alpha@[i] == old(alpha)@[i]
                    },
            decreases end_x - fx,
        {
            let point = SamplePoint {
                x: fx - ofx,
                y: fy - ofy,
                width: segmentation.width,
                height: segmentation.height,
            };
            let a: u8 = sample(objects, point);
            proof {
                lemma_place(fx as int, fy as int, w, h);
                assert(0 <= fy * w) by (nonlinear_arith)
                    requires
                        0 <= fy,
                        0 <= w,
                ;
            }
            let at: usize = fy as usize * frame_w + fx as usize;
            let ghost before = alpha@;
            assert(before[at as int] == old(alpha)@[at as int]);
            assert(covers(seg, fx as int, fy as int));
            let held: u8 = alpha[at];
            if a > held {
                alpha.set(at, a);
            }
            proof {
                assert(raised(*sample, *objects, point, held, alpha@[at as int]));
                assert forall|i: int| #![trigger alpha@[i]] 0 <= i < w * h implies if covers(
                    seg,
                    i % w,
                    i / w,
                ) && (i / w < fy || i / w == fy && i % w < fx + 1) {
                    raised(
                        *sample,
                        *objects,
                        point_of(seg, i % w, i / w),
                        old(alpha)@[i],
                        alpha@[i],
                    )
                } else {
                    alpha@[i] == old(alpha)@[i]
                } by {
                    if i != at {
                        assert(alpha@[i] == before[i]);
                        lemma_column_and_row(i, w, h);
                    }
                }
            }
            fx = fx + 1;
        }
        proof {
            assert forall|i: int| #![trigger alpha@[i]] 0 <= i < w * h implies if covers(
                seg,
                i % w,
                i / w,
            ) && i / w < fy + 1 {
                raised(
                    *sample,
                    *objects,
                    point_of(seg, i % w, i / w),
                    old(alpha)@[i],
                    alpha@[i],
                )
            } else {
                alpha@[i] == old(alpha)@[i]
            } by {
                if w > 0 {
                    lemma_column_and_row(i, w, h);
                }
            }
        }
        fy = fy + 1;
    }
    proof {
        assert forall|i: int| #![trigger alpha@[i]] 0 <= i < w * h implies if covers(
            seg,
            i % w,
            i / w,
        ) {
            raised(*sample, *objects, point_of(seg, i % w, i / w), old(alpha)@[i], alpha@[i])
        } else {
            alpha@[i] == old(alpha)@[i]
        } by {
            assert(w > 0) by (nonlinear_arith)
                requires
                    0 <= i < w * h,
                    0 <= w,
                    0 <= h,
            ;
            lemma_column_and_row(i, w, h);
        }
    }
}

/// An alpha map after a segmentation: united with its objects, if it is usable.
pub open spec fn alpha_step<S: Fn(&ObjectMap, SamplePoint) -> u8>(
    sample: S,
    segmentation: Segmentation,
    selected: Option<Seq<Seq<char>>>,
    frame: (int, int),
    before: Seq<u8>,
    after: Seq<u8>,
) -> bool {
    if usable(segmentation) {
        exists|objects: ObjectMap|
            objects.shows(segmentation.mask, segmentation.filter(selected)) && #[trigger] united(
                sample,
                objects,
                segmentation,
                frame.0,
                frame.1,
                before,
                after,
            )
    } else {
        after == before
    }
}

/// The alpha maps before, between and after the segmentations of a frame.
pub open spec fn alpha_stages<S: Fn(&ObjectMap, SamplePoint) -> u8>(
    sample: S,
    segmentations: Seq<Segmentation>,
    selected: Option<Seq<Seq<char>>>,
    frame: (int, int),
    stages: Seq<Seq<u8>>,
) -> bool {
    &&& stages.len() == segmentations.len() + 1
    &&& stages[0] == Seq::new((frame.0 * frame.1) as nat, |i: int| 0u8)
    &&& forall|i: int|
        #![trigger segmentations[i]]
        0 <= i < segmentations.len() ==> alpha_step(
            sample,
            segmentations[i],
            selected,
            frame,
            stages[i],
            stages[i + 1],
        )
}

/// One of the segmentations is usable.
pub open spec fn some_usable(segmentations: Seq<Segmentation>) -> bool {
    exists|i: int| 0 <= i < segmentations.len() && usable(#[trigger] segmentations[i])
}

/// Whether a frame has a usable mask, and the alpha map that its segmentations make.
pub open spec fn is_frame_alpha<S: Fn(&ObjectMap, SamplePoint) -> u8>(
    sample: S,
    segmentations: Option<Vec<Segmentation>>,
    selected: Option<Seq<Seq<char>>>,
    feather: int,
    frame: (int, int),
    found: bool,
    alpha: Seq<u8>,
) -> bool {
    match segmentations {
        Some(list) => {
            &&& found == some_usable(list@)
            &&& exists|stages: Seq<Seq<u8>>|
                #[trigger] alpha_stages(sample, list@, selected, frame, stages) && alpha == (if found
                    && feather > 0 {
                    blurred(stages.last(), frame.0, frame.1, feather)
                } else {
                    stages.last()
                })
        },
        None => !found,
    }
}

/// Build a full-frame alpha map (255 = object, 0 = background) from the segmentations of a
/// frame, into the state's scratch buffer. Returns whether there was a usable mask; without
/// one the frame's alpha is left as it arrived. `segmentations` is `None` for a frame
/// without analytics. `sample` upscales an object map; `feather` softens the result.
pub fn build_frame_alpha<C, S: Fn(&ObjectMap, SamplePoint) -> u8>(
    state: &mut State<C>,
    selected_types: &Option<String>,
    feather: u32,
    segmentations: &Option<Vec<Segmentation>>,
    frame_w: usize,
    frame_h: usize,
    sample: &S,
) -> (r: bool)
    requires
        old(state).cache_sound(),
        old(state).selection_sound(),
        frame_w <= i32::MAX,
        frame_h <= i32::MAX,
        frame_w * frame_h <= usize::MAX,
        feather <= RADIUS_LIMIT,
        frame_w + feather <= usize::MAX,
        frame_h + feather <= usize::MAX,
        segmentations matches Some(list) ==> forall|i: int|
            0 <= i < list@.len() ==> extent_fits(#[trigger] list@[i]),
        forall|objects: &ObjectMap, point: SamplePoint| sample.requires((objects, point)),
    ensures
        final(state).cache_sound(),
        final(state).selection_sound(),
        final(state).same_drawing(*old(state)),
        crate::segmentationoverlay::text_view(final(state).selected_types_source)
            == crate::segmentationoverlay::text_view(*selected_types),
        segmentations is None ==> final(state).same_scratch(*old(state)),
        r ==> final(state).alpha_scratch@.len() == frame_w * frame_h,
        is_frame_alpha(
            *sample,
            *segmentations,
            crate::segmentationoverlay::selection_of(
                crate::segmentationoverlay::text_view(*selected_types),
            ),
            feather as int,
            (frame_w as int, frame_h as int),
            r,
            final(state).alpha_scratch@,
        ),
{
    update_selected_type_cache(state, selected_types);
    let list = match segmentations {
        Some(list) => list,
        None => {
            return false;
        },
    };
    let selected = match &state.selected_type_names {
        Some(names) => Some(clone_names(names)),
        None => None,
    };
    let ghost names = crate::segmentationoverlay::selection_of(
        crate::segmentationoverlay::text_view(*selected_types),
    );
    let ghost frame = (frame_w as int, frame_h as int);
    zero_map(&mut state.alpha_scratch, frame_w * frame_h);
    let ghost mut stages: Seq<Seq<u8>> = seq![state.alpha_scratch@];
    let mut any: bool = false;
    let mut i: usize = 0;
    while i < list.len()
        invariant
            i <= list.len(),
            frame_w <= i32::MAX,
            frame_h <= i32::MAX,
            frame == (frame_w as int, frame_h as int),
            names == crate::segmentationoverlay::selection_of(
                crate::segmentationoverlay::text_view(*selected_types),
            ),
            crate::segmentationoverlay::names_view(selected) == names,
            forall|k: int| 0 <= k < list@.len() ==> extent_fits(#[trigger] list@[k]),
            forall|objects: &ObjectMap, point: SamplePoint| sample.requires((objects, point)),
            state.cache_sound(),
            state.selection_sound(),
            state.same_drawing(*old(state)),
            crate::segmentationoverlay::text_view(state.selected_types_source)
                == crate::segmentationoverlay::text_view(*selected_types),
            state.alpha_scratch.len() == frame_w * frame_h,
            any == some_usable(list@.take(i as int)),
            alpha_stages(*sample, list@.take(i as int), names, frame, stages),
            stages.last() == state.alpha_scratch@,
        decreases list.len() - i,
    {
        let ghost before = list@.take(i as int);
        let ghost after = list@.take(i + 1);
        let segmentation = &list[i];
        let ghost earlier = state.alpha_scratch@;
        let is_usable: bool = segmentation.width != 0 && segmentation.height != 0
            && segmentation.mask.width != 0 && segmentation.mask.height != 0;
        if is_usable {
            let filter = cached_mask_filter(state, &segmentation.classes, &selected);
            let objects = object_map(&segmentation.mask, &filter);
            assert(crate::segmentationoverlay::filter_view(filter) == segmentation.filter(names));
            unite(
                &mut state.alpha_scratch,
                &objects,
                segmentation,
                frame_w,
                frame_h,
                sample,
            );
            assert(united(
                *sample,
                objects,
                *segmentation,
                frame.0,
                frame.1,
                earlier,
                state.alpha_scratch@,
            ));
            any = true;
        }
        proof {
            assert(alpha_step(
                *sample,
                *segmentation,
                names,
                frame,
                earlier,
                state.alpha_scratch@,
            ));
            let grown = stages.push(state.alpha_scratch@);
            assert forall|k: int|
                #![trigger after[k]]
                0 <= k < after.len() implies alpha_step(
                *sample,
                after[k],
                names,
                frame,
                grown[k],
                grown[k + 1],
            ) by {
                if k < before.len() {
                    assert(before[k] == after[k]);
                }
            }
            stages = grown;
            if some_usable(before) {
                let k = choose|k: int| 0 <= k < before.len() && usable(#[trigger] before[k]);
                assert(usable(after[k]));
            }
            if is_usable {
                assert(usable(after[i as int]));
            } else if some_usable(after) {
                let k = choose|k: int| 0 <= k < after.len() && usable(#[trigger] after[k]);
                assert(usable(before[k]));
            }
        }
        i = i + 1;
    }
    assert(list@.take(i as int) =~= list@);
    if any && feather > 0 {
        box_blur(
            &mut state.alpha_scratch,
            &mut state.blur_scratch,
            frame_w,
            frame_h,
            feather as usize,
        );
    }
    any
}

/// Byte offset of the alpha component within each 4-byte pixel, per format.
pub open spec fn alpha_place(format: VideoFormat) -> Option<usize> {
    match format {
        VideoFormat::Rgba | VideoFormat::Bgra => Some(3),
        VideoFormat::Argb | VideoFormat::Abgr | VideoFormat::Ayuv => Some(0),
        _ => None,
    }
}

/// Byte offset of the alpha component within each 4-byte pixel, per format.
pub fn alpha_offset(format: VideoFormat) -> (r: Option<usize>)
    ensures
        r == alpha_place(format),
{
    match format {
        VideoFormat::Rgba | VideoFormat::Bgra => Some(3),
        VideoFormat::Argb | VideoFormat::Abgr | VideoFormat::Ayuv => Some(0),
        _ => None,
    }
}

/// The alpha byte of a pixel, inverted or not.
pub open spec fn alpha_byte(a: u8, invert: bool) -> u8 {
    if invert {
        (255 - a) as u8
    } else {
        a
    }
}

/// The alpha byte of a pixel, inverted or not.
pub fn shown_alpha(a: u8, invert: bool) -> (r: u8)
    ensures
        r == alpha_byte(a, invert),
{
    if invert {
        255 - a
    } else {
        a
    }
}

/// The frame's rows of four bytes per pixel lie in the data without overlapping.
pub open spec fn rows_fit(len: int, stride: int, frame_w: int, frame_h: int) -> bool {
    &&& 4 * frame_w <= stride
    &&& frame_h == 0 || (frame_h - 1) * stride + 4 * frame_w <= len
}

/// A byte of the frame is the alpha byte of some pixel.
pub open spec fn is_alpha(
    i: int,
    stride: int,
    frame_w: int,
    frame_h: int,
    offset: int,
) -> bool {
    &&& i / stride < frame_h
    &&& i % stride < 4 * frame_w
    &&& i % stride % 4 == offset
}

/// A frame whose alpha bytes come from an alpha map; the other bytes stay.
pub open spec fn with_alpha(
    data: Seq<u8>,
    stride: int,
    frame_w: int,
    frame_h: int,
    offset: int,
    alpha: Seq<u8>,
    invert: bool,
) -> Seq<u8> {
    Seq::new(
        data.len(),
        |i: int|
            if is_alpha(i, stride, frame_w, frame_h, offset) {
                alpha_byte(alpha[(i / stride) * frame_w + i % stride / 4], invert)
            } else {
                data[i]
            },
    )
}

/// Write an alpha map into the alpha bytes of a frame, and leave the other bytes alone.
pub fn write_alpha(
    data: &mut Vec<u8>,
    stride: usize,
    frame_w: usize,
    frame_h: usize,
    offset: usize,
    alpha: &Vec<u8>,
    invert: bool,
)
    requires
        offset < 4,
        0 < stride,
        rows_fit(old(data).len() as int, stride as int, frame_w as int, frame_h as int),
        frame_w * frame_h <= alpha.len(),
    ensures
        final(data)@ == with_alpha(
            old(data)@,
            stride as int,
            frame_w as int,
            frame_h as int,
            offset as int,
            alpha@,
            invert,
        ),
{
    let ghost s = stride as int;
    let ghost w = frame_w as int;
    let ghost h = frame_h as int;
    let mut y: usize = 0;
    while y < frame_h
        invariant
            y <= frame_h,
            offset < 4,
            0 < stride,
            s == stride,
            w == frame_w,
            h == frame_h,
            rows_fit(data.len() as int, s, w, h),
            w * h <= alpha.len(),
            data.len() == old(data).len(),
            forall|i: int|
                #![trigger data@[i]]
                0 <= i < data.len() ==> data@[i] == (if is_alpha(i, s, w, h, offset as int) && i / s
                    < y {
                    alpha_byte(alpha@[(i / s) * w + i % s / 4], invert)
                } else {
                    old(data)@[i]
                }),
        decreases frame_h - y,
    {
        let mut x: usize = 0;
        while x < frame_w
            invariant
                x <= frame_w,
                y < frame_h,
                offset < 4,
                0 < stride,
                s == stride,
                w == frame_w,
                h == frame_h,
                rows_fit(data.len() as int, s, w, h),
                w * h <= alpha.len(),
                data.len() == old(data).len(),
                forall|i: int|
                    #![trigger data@[i]]
                    0 <= i < data.len() ==> data@[i] == (if is_alpha(i, s, w, h, offset as int) && (i
                        / s < y || i / s == y && i % s < 4 * x) {
                        alpha_byte(alpha@[(i / s) * w + i % s / 4], invert)
                    } else {
                        old(data)@[i]
                    }),
            decreases frame_w - x,
        {
            let ghost at: int = y * s + 4 * x + offset;
            proof {
                lemma_place(x as int, y as int, w, h);
                assert(0 <= y * w && 0 <= y * s && y * s <= (h - 1) * s) by (nonlinear_arith)
                    requires
                        0 <= y <= h - 1,
                        0 <= w,
                        0 < s,
                ;
                vstd::arithmetic::div_mod::lemma_fundamental_div_mod_converse(
                    at,
                    s,
                    y as int,
                    4 * x + offset,
                );
            }
            let a: u8 = alpha[y * frame_w + x];
            let value: u8 = shown_alpha(a, invert);
            let ghost before = data@;
            data.set(y * stride + x * 4 + offset, value);
            proof {
                assert forall|i: int| #![trigger data@[i]] 0 <= i < data.len() implies data@[i] == (
                if is_alpha(i, s, w, h, offset as int) && (i / s < y || i / s == y && i % s < 4 * (x
                    + 1)) {
                    alpha_byte(alpha@[(i / s) * w + i % s / 4], invert)
                } else {
                    old(data)@[i]
                }) by {
                    if i != at {
                        assert(data@[i] == before[i]);
                        vstd::arithmetic::div_mod::lemma_fundamental_div_mod(i, s);
                        assert(s * (i / s) == (i / s) * s) by (nonlinear_arith);
                    }
                }
            }
            x = x + 1;
        }
        y = y + 1;
    }
    assert(data@ =~= with_alpha(old(data)@, s, w, h, offset as int, alpha@, invert));
}

/// What the alpha of a frame is made from.
#[derive(Debug)]
pub struct Settings {
    /// The names of the classes that count as objects, separated by semicolons; without it,
    /// all do.
    pub selected_types: Option<String>,
    /// Whether objects become transparent instead of the background.
    pub invert: bool,
    /// How far the edges of objects are softened.
    pub feather: u32,
}

impl Default for Settings {
    fn default() -> (r: Self)
        ensures
            r.selected_types is None,
            !r.invert,
            r.feather == 0,
    {
        Settings { selected_types: None, invert: false, feather: 0 }
    }
}

/// Make the objects of a frame opaque and its background transparent. An error, if the
/// format has no alpha. Else whether the frame's alpha was written: a frame without a usable
/// mask is left as it arrived.
pub fn mask_frame<C, S: Fn(&ObjectMap, SamplePoint) -> u8>(
    state: &mut State<C>,
    settings: &Settings,
    format: VideoFormat,
    segmentations: &Option<Vec<Segmentation>>,
    data: &mut Vec<u8>,
    stride: usize,
    frame_w: usize,
    frame_h: usize,
    sample: &S,
) -> (r: Result<bool, ()>)
    requires
        old(state).cache_sound(),
        old(state).selection_sound(),
        frame_w <= i32::MAX,
        frame_h <= i32::MAX,
        frame_w * frame_h <= usize::MAX,
        0 < stride,
        rows_fit(old(data).len() as int, stride as int, frame_w as int, frame_h as int),
        settings.feather <= RADIUS_LIMIT,
        frame_w + settings.feather <= usize::MAX,
        frame_h + settings.feather <= usize::MAX,
        segmentations matches Some(list) ==> forall|i: int|
            0 <= i < list@.len() ==> extent_fits(#[trigger] list@[i]),
        forall|objects: &ObjectMap, point: SamplePoint| sample.requires((objects, point)),
    ensures
        final(state).cache_sound(),
        final(state).selection_sound(),
        final(state).same_drawing(*old(state)),
        (r is Err) == (alpha_place(format) is None),
        r is Err ==> *final(state) == *old(state) && *final(data) == *old(data),
        r matches Ok(written) ==> {
            &&& is_frame_alpha(
                *sample,
                *segmentations,
                crate::segmentationoverlay::selection_of(
                    crate::segmentationoverlay::text_view(settings.selected_types),
                ),
                settings.feather as int,
                (frame_w as int, frame_h as int),
                written,
                final(state).alpha_scratch@,
            )
            &&& !written ==> *final(data) == *old(data)
            &&& written ==> final(data)@ == with_alpha(
                old(data)@,
                stride as int,
                frame_w as int,
                frame_h as int,
                alpha_place(format)->0 as int,
                final(state).alpha_scratch@,
                settings.invert,
            )
        },
{
    let offset: usize = match alpha_offset(format) {
        Some(offset) => offset,
        None => {
            return Err(());
        },
    };
    let found: bool = build_frame_alpha(
        state,
        &settings.selected_types,
        settings.feather,
        segmentations,
        frame_w,
        frame_h,
        sample,
    );
    if found {
        write_alpha(
            data,
            stride,
            frame_w,
            frame_h,
            offset,
            &state.alpha_scratch,
            settings.invert,
        );
    }
    Ok(found)
}

proof fn lemma_tap_sum_limit(line: Seq<u8>, radius: int, lo: int, hi: int, limit: int)
    requires
        0 <= lo <= hi,
        0 < line.len(),
        0 <= radius,
        0 <= limit,
        forall|k: int| 0 <= k < line.len() ==> #[trigger] line[k] <= limit,
    ensures
        tap_sum(line, radius, lo, hi) <= limit * (hi - lo),
    decreases hi - lo,
{
    if hi > lo {
        lemma_tap_sum_limit(line, radius, lo, hi - 1, limit);
        assert(limit * (hi - lo) == limit * (hi - 1 - lo) + limit) by (nonlinear_arith);
    }
}

proof fn lemma_average_limit(line: Seq<u8>, radius: int, x: int, limit: int)
    requires
        0 <= x < line.len(),
        0 <= radius,
        0 <= limit,
        forall|k: int| 0 <= k < line.len() ==> #[trigger] line[k] <= limit,
    ensures
        0 <= averaged(line, radius, x) <= limit,
        averaged(line, radius, x) <= 255,
{
    lemma_average_is_a_byte(line, radius, x);
    let lo = crate::geometry::int_max(x - radius, 0);
    let hi = x + radius + 1;
    lemma_tap_sum_limit(line, radius, lo, hi, limit);
    let sum = tap_sum(line, radius, lo, hi);
    let window = 2 * radius + 1;
    assert(sum <= limit * window) by (nonlinear_arith)
        requires
            sum <= limit * (hi - lo),
            hi - lo <= window,
            0 <= limit,
    ;
    assert(sum / window <= limit) by (nonlinear_arith)
        requires
            sum <= limit * window,
            1 <= window,
    ;
}

/// Blurring makes nothing brighter than the brightest byte; a map of background stays
/// background.
pub proof fn law_blur_adds_nothing(
    map: Seq<u8>,
    w: int,
    h: int,
    radius: int,
    limit: int,
    i: int,
)
    requires
        0 < w,
        0 < h,
        w * h <= map.len(),
        0 <= radius,
        0 <= limit,
        forall|k: int| 0 <= k < w * h ==> #[trigger] map[k] <= limit,
        0 <= i < w * h,
    ensures
        blurred(map, w, h, radius)[i] <= limit,
{
    let rows = smeared(map, w, h, radius);
    assert forall|k: int| 0 <= k < w * h implies #[trigger] rows[k] <= limit by {
        lemma_column_and_row(k, w, h);
        let start = (k / w) * w;
        let line = line_of(map, start, 1, w);
        assert forall|x: int| 0 <= x < line.len() implies #[trigger] line[x] <= limit by {
            lemma_place(x, k / w, w, h);
            assert(line[x] == map[start + x * 1]);
        }
        lemma_average_limit(line, radius, k % w, limit);
    }
    lemma_column_and_row(i, w, h);
    let line = line_of(rows, i % w, w, h);
    assert forall|y: int| 0 <= y < line.len() implies #[trigger] line[y] <= limit by {
        lemma_place(i % w, y, w, h);
        assert(line[y] == rows[i % w + y * w]);
    }
    lemma_average_limit(line, radius, i / w, limit);
}

/// Objects only add to the alpha map: a later segmentation takes nothing away from an
/// earlier one.
pub proof fn law_objects_unite<S: Fn(&ObjectMap, SamplePoint) -> u8>(
    sample: S,
    segmentations: Seq<Segmentation>,
    selected: Option<Seq<Seq<char>>>,
    frame: (int, int),
    stages: Seq<Seq<u8>>,
    m: int,
    n: int,
    i: int,
)
    requires
        alpha_stages(sample, segmentations, selected, frame, stages),
        0 <= m <= n < stages.len(),
        0 <= i < frame.0 * frame.1,
    ensures
        stages[m][i] <= stages[n][i],
    decreases n - m,
{
    if m < n {
        law_objects_unite(sample, segmentations, selected, frame, stages, m, n - 1, i);
        let segmentation = segmentations[n - 1];
        let before = stages[n - 1];
        let after = stages[n - 1 + 1];
        assert(alpha_step(sample, segmentation, selected, frame, before, after));
        if usable(segmentation) {
            let objects = choose|objects: ObjectMap|
                objects.shows(segmentation.mask, segmentation.filter(selected))
                    && #[trigger] united(
                    sample,
                    objects,
                    segmentation,
                    frame.0,
                    frame.1,
                    before,
                    after,
                );
            assert(after[i] >= before[i]);
        }
    }
}

/// The sum of the bytes of a line from `lo` up to `hi`.
pub open spec fn line_sum(line: Seq<u8>, lo: int, hi: int) -> int
    decreases hi - lo,
{
    if hi <= lo {
        0
    } else {
        line_sum(line, lo, hi - 1) + line[hi - 1]
    }
}

/// Where the window lies on the line, blurring averages the bytes that are at most the
/// radius away.
pub proof fn law_blur_averages_the_window(line: Seq<u8>, radius: int, x: int)
    requires
        0 <= radius <= x,
        x + radius < line.len(),
    ensures
        averaged(line, radius, x) == line_sum(line, x - radius, x + radius + 1) / (2 * radius + 1),
{
    lemma_taps_are_bytes(line, radius, x - radius, x + radius + 1);
}

proof fn lemma_taps_are_bytes(line: Seq<u8>, radius: int, lo: int, hi: int)
    requires
        0 <= lo <= hi <= line.len(),
    ensures
        tap_sum(line, radius, lo, hi) == line_sum(line, lo, hi),
    decreases hi - lo,
{
    if hi > lo {
        lemma_taps_are_bytes(line, radius, lo, hi - 1);
    }
}

/// A map is blurred along its rows and then along its columns: the byte at `(x, y)` is the
/// average of its column in a map of which every byte is the average of its row.
pub proof fn law_blur_goes_along_rows_and_columns(
    map: Seq<u8>,
    w: int,
    h: int,
    radius: int,
    x: int,
    y: int,
) -> (rows: Seq<Seq<u8>>)
    requires
        0 <= x < w,
        0 <= y < h,
        w * h <= map.len(),
        0 <= radius,
    ensures
        rows.len() == h,
        forall|v: int|
            #![trigger rows[v]]
            0 <= v < h ==> rows[v].len() == w && forall|u: int|
                0 <= u < w ==> #[trigger] rows[v][u] == averaged(
                    map.subrange(v * w, v * w + w),
                    radius,
                    u,
                ),
        blurred(map, w, h, radius)[y * w + x] == averaged(
            Seq::new(h as nat, |v: int| rows[v][x]),
            radius,
            y,
        ),
{
    let smear = smeared(map, w, h, radius);
    let rows = Seq::new(h as nat, |v: int| smear.subrange(v * w, v * w + w));
    assert forall|v: int| #![trigger rows[v]] 0 <= v < h implies rows[v].len() == w && forall|
        u: int,
    |
        0 <= u < w ==> #[trigger] rows[v][u] == averaged(
            map.subrange(v * w, v * w + w),
            radius,
            u,
        ) by {
        lemma_place(0, v, w, h);
        lemma_place(w - 1, v, w, h);
        let line = line_of(map, v * w, 1, w);
        assert(line =~= map.subrange(v * w, v * w + w));
        assert forall|u: int| 0 <= u < w implies #[trigger] rows[v][u] == averaged(
            map.subrange(v * w, v * w + w),
            radius,
            u,
        ) by {
            lemma_place(u, v, w, h);
            lemma_average_is_a_byte(line, radius, u);
            assert(rows[v][u] == smear[v * w + u]);
        }
    }
    lemma_place(x, y, w, h);
    let column = line_of(smear, x, w, h);
    let own = Seq::new(h as nat, |v: int| rows[v][x]);
    assert forall|v: int| 0 <= v < h implies column[v] == own[v] by {
        lemma_place(x, v, w, h);
        lemma_place(0, v, w, h);
        lemma_place(w - 1, v, w, h);
        assert(rows[v][x] == smear[v * w + x]);
    }
    assert(column =~= own);
    lemma_average_is_a_byte(column, radius, y);
    rows
}

/// An object map is opaque where the mask's pixel at the same place shows, and transparent
/// elsewhere.
pub proof fn law_objects_lie_where_the_mask_shows(
    objects: ObjectMap,
    mask: GrayMask,
    filter: Option<Seq<bool>>,
    x: int,
    y: int,
)
    requires
        objects.shows(mask, filter),
        0 <= x < mask.width,
        0 <= y < mask.height,
    ensures
        objects.width == mask.width,
        objects.height == mask.height,
        objects.data@.len() == mask.width * mask.height,
        ({
            let value = mask.data@[y * mask.stride + x];
            let hidden = value == 0 || (filter matches Some(flags) && !(value < flags.len()
                && flags[value as int]));
            &&& hidden ==> objects.data@[y * mask.width + x] == 0
            &&& !hidden ==> objects.data@[y * mask.width + x] == 255
        }),
{
    lemma_place(x, y, mask.width as int, mask.height as int);
}

/// A segmentation adds its objects where its area lies in the frame: there a pixel becomes
/// the larger of what it was and the sample at its offset from the area's corner. Outside of
/// the area nothing changes.
pub proof fn law_objects_are_sampled_in_their_area<S: Fn(&ObjectMap, SamplePoint) -> u8>(
    sample: S,
    objects: ObjectMap,
    segmentation: Segmentation,
    frame_w: int,
    frame_h: int,
    before: Seq<u8>,
    after: Seq<u8>,
    x: int,
    y: int,
)
    requires
        united(sample, objects, segmentation, frame_w, frame_h, before, after),
        0 <= x < frame_w <= i32::MAX,
        0 <= y < frame_h <= i32::MAX,
        segmentation.width <= i32::MAX,
        segmentation.height <= i32::MAX,
    ensures
        after.len() == before.len(),
        ({
            let at = y * frame_w + x;
            let within = segmentation.x <= x < segmentation.x + segmentation.width
                && segmentation.y <= y < segmentation.y + segmentation.height;
            &&& !within ==> after[at] == before[at]
            &&& within ==> after[at] >= before[at] && exists|a: u8|
                #[trigger] sample.ensures(
                    (
                        &objects,
                        SamplePoint {
                            x: (x - segmentation.x) as i32,
                            y: (y - segmentation.y) as i32,
                            width: segmentation.width,
                            height: segmentation.height,
                        },
                    ),
                    a,
                ) && after[at] >= a && (after[at] == a || after[at] == before[at])
        }),
{
    lemma_place(x, y, frame_w, frame_h);
    let at = y * frame_w + x;
    if covers(segmentation, x, y) {
        let point = point_of(segmentation, x, y);
        assert(raised(sample, objects, point, before[at], after[at]));
        let a = choose|a: u8|
            #[trigger] sample.ensures((&objects, point), a) && after[at] == (if a > before[at] {
                a
            } else {
                before[at]
            });
        assert(sample.ensures((&objects, point), a));
    } else {
        assert(after[at] == before[at]);
    }
}

/// The alpha map is written into the alpha byte of every pixel, or the opposite where it is
/// inverted; the pixel's other bytes stay as they are.
pub proof fn law_alpha_goes_into_the_alpha_bytes(
    data: Seq<u8>,
    stride: int,
    frame_w: int,
    frame_h: int,
    offset: int,
    alpha: Seq<u8>,
    invert: bool,
    x: int,
    y: int,
    c: int,
)
    requires
        rows_fit(data.len() as int, stride, frame_w, frame_h),
        0 <= x < frame_w,
        0 <= y < frame_h,
        0 <= c < 4,
        0 <= offset < 4,
    ensures
        ({
            let at = y * stride + 4 * x + c;
            let after = with_alpha(data, stride, frame_w, frame_h, offset, alpha, invert);
            &&& after.len() == data.len()
            &&& 0 <= at < data.len()
            &&& c != offset ==> after[at] == data[at]
            &&& c == offset && !invert ==> after[at] == alpha[y * frame_w + x]
            &&& c == offset && invert ==> after[at] + alpha[y * frame_w + x] == 255
        }),
{
    let at = y * stride + 4 * x + c;
    assert(0 <= y * stride && y * stride <= (frame_h - 1) * stride) by (nonlinear_arith)
        requires
            0 <= y <= frame_h - 1,
            0 < stride,
    ;
    assert(at == stride * y + (4 * x + c)) by (nonlinear_arith)
        requires
            at == y * stride + 4 * x + c,
    ;
    vstd::arithmetic::div_mod::lemma_fundamental_div_mod_converse(at, stride, y, 4 * x + c);
    assert((4 * x + c) % 4 == c && (4 * x + c) / 4 == x);
}

/// A frame's alpha byte is where its layout has it: the two agree on every format that has
/// both.
pub proof fn law_alpha_is_where_the_layout_has_it(format: VideoFormat)
    ensures
        crate::packed::layout_of(format) matches Some(layout) ==> alpha_place(format)
            == layout.alpha,
        format is Ayuv ==> alpha_place(format) == Some(0usize),
        format is Other ==> alpha_place(format) is None,
{
}

/// A frame starts out as background, every usable segmentation adds its objects in turn, and
/// feathering comes last. A frame without analytics, or without a usable segmentation, has
/// no alpha of its own.
pub proof fn law_alpha_starts_as_background<S: Fn(&ObjectMap, SamplePoint) -> u8>(
    sample: S,
    list: Vec<Segmentation>,
    selected: Option<Seq<Seq<char>>>,
    feather: int,
    frame: (int, int),
    found: bool,
    alpha: Seq<u8>,
)
    requires
        is_frame_alpha(sample, Some(list), selected, feather, frame, found, alpha),
        0 <= frame.0,
        0 <= frame.1,
    ensures
        found <==> exists|i: int|
            0 <= i < list@.len() && (#[trigger] list@[i]).width > 0 && list@[i].height > 0
                && list@[i].mask.width > 0 && list@[i].mask.height > 0,
        !found && feather >= 0 ==> forall|i: int|
            0 <= i < frame.0 * frame.1 ==> #[trigger] alpha[i] == 0,
{
    if found {
        let i = choose|i: int| 0 <= i < list@.len() && usable(#[trigger] list@[i]);
        assert(list@[i].width > 0);
    } else {
        assert forall|i: int| 0 <= i < list@.len() implies !((#[trigger] list@[i]).width > 0
            && list@[i].height > 0 && list@[i].mask.width > 0 && list@[i].mask.height > 0) by {
            assert(!usable(list@[i]));
        }
        let stages = choose|stages: Seq<Seq<u8>>|
            #[trigger] alpha_stages(sample, list@, selected, frame, stages) && alpha
                == stages.last();
        lemma_unusable_stages(sample, list@, selected, frame, stages, list@.len() as int);
        assert(0 <= frame.0 * frame.1) by (nonlinear_arith)
            requires
                0 <= frame.0,
                0 <= frame.1,
        ;
    }
}

proof fn lemma_unusable_stages<S: Fn(&ObjectMap, SamplePoint) -> u8>(
    sample: S,
    segmentations: Seq<Segmentation>,
    selected: Option<Seq<Seq<char>>>,
    frame: (int, int),
    stages: Seq<Seq<u8>>,
    n: int,
)
    requires
        alpha_stages(sample, segmentations, selected, frame, stages),
        !some_usable(segmentations),
        0 <= n <= segmentations.len(),
    ensures
        stages[n] == stages[0],
    decreases n,
{
    if n > 0 {
        lemma_unusable_stages(sample, segmentations, selected, frame, stages, n - 1);
        assert(!usable(segmentations[n - 1]));
        assert(alpha_step(
            sample,
            segmentations[n - 1],
            selected,
            frame,
            stages[n - 1],
            stages[n - 1 + 1],
        ));
    }
}

/// Feathering comes last: the alpha map is what the segmentations made of it, blurred where a
/// radius is set and a mask was usable, and else as it is. A frame without analytics has no
/// usable mask.
pub proof fn law_feathering_comes_last<S: Fn(&ObjectMap, SamplePoint) -> u8>(
    sample: S,
    list: Vec<Segmentation>,
    selected: Option<Seq<Seq<char>>>,
    feather: int,
    frame: (int, int),
    found: bool,
    alpha: Seq<u8>,
) -> (stages: Seq<Seq<u8>>)
    requires
        is_frame_alpha(sample, Some(list), selected, feather, frame, found, alpha),
        0 <= feather,
    ensures
        alpha_stages(sample, list@, selected, frame, stages),
        stages.len() == list@.len() + 1,
        feather == 0 || !found ==> alpha == stages[list@.len() as int],
        feather > 0 && found ==> alpha == blurred(
            stages[list@.len() as int],
            frame.0,
            frame.1,
            feather,
        ),
        is_frame_alpha(sample, None, selected, feather, frame, found, alpha) == !found,
{
    choose|stages: Seq<Seq<u8>>|
        #[trigger] alpha_stages(sample, list@, selected, frame, stages) && alpha == (if found
            && feather > 0 {
            blurred(stages.last(), frame.0, frame.1, feather)
        } else {
            stages.last()
        })
}

/// Each segmentation changes the alpha map only in the pixels that its area covers, and only
/// if both its mask and its area have pixels.
pub proof fn law_segmentations_change_their_area_only<S: Fn(&ObjectMap, SamplePoint) -> u8>(
    sample: S,
    segmentations: Seq<Segmentation>,
    selected: Option<Seq<Seq<char>>>,
    frame: (int, int),
    stages: Seq<Seq<u8>>,
    n: int,
    x: int,
    y: int,
)
    requires
        alpha_stages(sample, segmentations, selected, frame, stages),
        0 <= n < segmentations.len(),
        0 <= x < frame.0,
        0 <= y < frame.1,
    ensures
        ({
            let s = segmentations[n];
            let at = y * frame.0 + x;
            s.width == 0 || s.height == 0 || s.mask.width == 0 || s.mask.height == 0 || x < s.x || x
                >= s.x + (s.width as i32) || y < s.y || y >= s.y + (s.height as i32) ==> stages[n
                + 1][at] == stages[n][at]
        }),
{
    let s = segmentations[n];
    let at = y * frame.0 + x;
    assert(alpha_step(sample, s, selected, frame, stages[n], stages[n + 1]));
    vstd::arithmetic::div_mod::lemma_fundamental_div_mod_converse(at, frame.0, y, x);
    assert(0 <= y * frame.0 && at < frame.0 * frame.1) by (nonlinear_arith)
        requires
            at == y * frame.0 + x,
            0 <= x < frame.0,
            0 <= y < frame.1,
    ;
    if usable(s) {
        let objects = choose|objects: ObjectMap|
            objects.shows(s.mask, s.filter(selected)) && #[trigger] united(
                sample,
                objects,
                s,
                frame.0,
                frame.1,
                stages[n],
                stages[n + 1],
            );
        let after = stages[n + 1];
        assert(!covers(s, at % frame.0, at / frame.0) ==> after[at] == stages[n][at]);
    }
}

} // verus!
