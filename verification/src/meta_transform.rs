//! How pixel rectangles that travel with a buffer follow changes of its geometry.
//!
//! Three transforms are known:
//!   * matrix: the full affine map that covers scale, crop and letterbox border offsets;
//!     a rectangle is clipped to the output frame and dropped if it lies fully outside;
//!   * scale: the simpler map by the ratio of the frame sizes, which never clips;
//!   * copy: a plain buffer copy; rectangles are carried verbatim.

use vstd::prelude::*;

use crate::geometry::Rect;

verus! {

/// `a / d`, rounded toward zero.
pub open spec fn truncated_quotient(a: int, d: int) -> int {
    if a >= 0 {
        a / d
    } else {
        -((-a) / d)
    }
}

/// The low 32 bits of a number, read as an `i32`.
pub open spec fn wrapped(v: int) -> int {
    (v + 0x8000_0000) % 0x1_0000_0000 - 0x8000_0000
}

/// The low 32 bits of a number, read as an `i32`.
fn wrap(v: i64) -> (r: i32)
    requires
        -0x7000_0000_0000_0000 <= v <= 0x7000_0000_0000_0000,
    ensures
        r == wrapped(v as int),
{
    let r: i32 = v as i32;
    proof {
        let u: u64 = (v + 0x7fff_ffff_8000_0000) as u64;
        assert(v as i32 as i64 as int == ((u % 0x1_0000_0000) as i64 - 0x8000_0000i64) as int)
            by (bit_vector)
            requires
                u as i128 == v as i128 + 0x7fff_ffff_8000_0000i128,
                -0x7000_0000_0000_0000 <= v <= 0x7000_0000_0000_0000,
        ;
    }
    r
}

/// Ratio between a scaler's input and output frame dimensions.
#[derive(Debug, Clone, Copy, PartialEq, Eq, Structural)]
pub struct ScaleRatio {
    pub in_w: i32,
    pub in_h: i32,
    pub out_w: i32,
    pub out_h: i32,
}

/// One coordinate scaled from `in_size` to `out_size`; an input size below one counts as
/// one.
pub open spec fn scaled(v: int, in_size: int, out_size: int) -> int {
    wrapped(truncated_quotient(v * out_size, crate::geometry::int_max(in_size, 1)))
}

/// One coordinate scaled from `in_size` to `out_size`.
fn scale(v: i32, in_size: i32, out_size: i32) -> (r: i32)
    ensures
        r == scaled(v as int, in_size as int, out_size as int),
{
    let divisor: i64 = if in_size < 1 {
        1
    } else {
        in_size as i64
    };
    assert(-0x4000_0000_0000_0000 <= v * out_size <= 0x4000_0000_0000_0000) by (nonlinear_arith)
        requires
            -0x8000_0000 <= v <= 0x7fff_ffff,
            -0x8000_0000 <= out_size <= 0x7fff_ffff,
    ;
    let product: i64 = v as i64 * out_size as i64;
    if product >= 0 {
        assert(0 <= product as int / divisor as int <= product) by (nonlinear_arith)
            requires
                product >= 0,
                divisor >= 1,
        ;
        wrap(product / divisor)
    } else {
        let magnitude: i64 = -product;
        assert(0 <= magnitude as int / divisor as int <= magnitude) by (nonlinear_arith)
            requires
                magnitude >= 0,
                divisor >= 1,
        ;
        wrap(-(magnitude / divisor))
    }
}

impl ScaleRatio {
    /// `rect` in the output coordinate space.
    pub open spec fn scaled_rect(self, rect: Rect) -> Rect {
        Rect::of(
            scaled(rect.left as int, self.in_w as int, self.out_w as int),
            scaled(rect.top as int, self.in_h as int, self.out_h as int),
            scaled(
                crate::geometry::saturated(rect.right - rect.left) as int,
                self.in_w as int,
                self.out_w as int,
            ),
            scaled(
                crate::geometry::saturated(rect.bottom - rect.top) as int,
                self.in_h as int,
                self.out_h as int,
            ),
        )
    }

    /// Rescale `rect` from the input to the output coordinate space. A pure scale
    /// never moves a rect outside the frame, so this never drops one.
    pub fn scale_rect(&self, rect: Rect) -> (r: Rect)
        ensures
            r == self.scaled_rect(rect),
            r.measurable(),
    {
        Rect::from_xywh(
            scale(rect.left, self.in_w, self.out_w),
            scale(rect.top, self.in_h, self.out_h),
            scale(rect.width(), self.in_w, self.out_w),
            scale(rect.height(), self.in_h, self.out_h),
        )
    }
}

/// A change of a buffer's geometry, as far as it is known.
#[derive(Debug, Clone, Copy, PartialEq, Eq, Structural)]
pub enum MetaTransform {
    /// A plain copy of the buffer.
    Copy,
    /// A scale; the frame sizes may be missing.
    Scale(Option<ScaleRatio>),
    /// An affine map; `described` says whether the matrix is there.
    Matrix { described: bool },
    /// Anything else.
    Unknown,
}

/// How rectangles get from the input to the output coordinate space.
#[derive(Debug, Clone, Copy, PartialEq, Eq, Structural)]
pub enum RectMap {
    Identity,
    Ratio(ScaleRatio),
    Matrix,
}

impl MetaTransform {
    /// How rectangles follow the transform, if they can.
    pub open spec fn map(self) -> Option<RectMap> {
        match self {
            MetaTransform::Copy => Some(RectMap::Identity),
            MetaTransform::Scale(Some(ratio)) => Some(RectMap::Ratio(ratio)),
            MetaTransform::Scale(None) => None,
            MetaTransform::Matrix { described } => if described {
                Some(RectMap::Matrix)
            } else {
                None
            },
            MetaTransform::Unknown => None,
        }
    }

    /// How rectangles follow the transform. `None` for a transform that is unknown or not
    /// described: the metadata is then dropped rather than copied with stale coordinates.
    pub fn rect_map(self) -> (r: Option<RectMap>)
        ensures
            r == self.map(),
    {
        match self {
            MetaTransform::Copy => Some(RectMap::Identity),
            MetaTransform::Scale(Some(ratio)) => Some(RectMap::Ratio(ratio)),
            MetaTransform::Scale(None) => None,
            MetaTransform::Matrix { described } => if described {
                Some(RectMap::Matrix)
            } else {
                None
            },
            MetaTransform::Unknown => None,
        }
    }
}

impl RectMap {
    /// The rectangle in the output space; `clipped` is what the matrix makes of it.
    pub open spec fn image(self, rect: Rect, clipped: Option<Rect>) -> Option<Rect> {
        match self {
            RectMap::Identity => Some(rect),
            RectMap::Ratio(ratio) => Some(ratio.scaled_rect(rect)),
            RectMap::Matrix => clipped,
        }
    }

    /// The rectangle in the output space, or `None` if it fell entirely outside the new
    /// frame. `clipped` is what the matrix of an affine map makes of the rectangle; the
    /// other maps do not read it.
    pub fn apply(self, rect: Rect, clipped: Option<Rect>) -> (r: Option<Rect>)
        ensures
            r == self.image(rect, clipped),
    {
        match self {
            RectMap::Identity => Some(rect),
            RectMap::Ratio(ratio) => Some(ratio.scale_rect(rect)),
            RectMap::Matrix => clipped,
        }
    }
}

/// Scaling between frames of the same positive size changes no rectangle whose extents
/// fit in an `i32`.
pub proof fn law_same_size_scale_is_identity(ratio: ScaleRatio, rect: Rect)
    requires
        ratio.in_w == ratio.out_w > 0,
        ratio.in_h == ratio.out_h > 0,
        rect.measurable(),
    ensures
        ratio.scaled_rect(rect) == rect,
{
    lemma_scaled_same(rect.left as int, ratio.in_w as int);
    lemma_scaled_same(rect.top as int, ratio.in_h as int);
    lemma_scaled_same(rect.right - rect.left, ratio.in_w as int);
    lemma_scaled_same(rect.bottom - rect.top, ratio.in_h as int);
}

proof fn lemma_scaled_same(v: int, size: int)
    requires
        i32::MIN <= v <= i32::MAX,
        size > 0,
    ensures
        scaled(v, size, size) == v,
{
    lemma_multiple_scale(v, size, 1);
}

/// Scaling by a whole factor multiplies a coordinate, as long as the product fits.
proof fn lemma_multiple_scale(v: int, size: int, factor: int)
    requires
        size > 0,
        factor >= 1,
        i32::MIN <= v * factor <= i32::MAX,
    ensures
        scaled(v, size, size * factor) == v * factor,
{
    let a = v * factor;
    assert(v * (size * factor) == size * a) by (nonlinear_arith)
        requires
            a == v * factor,
    ;
    if v >= 0 {
        assert(a >= 0) by (nonlinear_arith)
            requires
                a == v * factor,
                v >= 0,
                factor >= 1,
        ;
        assert(size * a >= 0) by (nonlinear_arith)
            requires
                size > 0,
                a >= 0,
        ;
        vstd::arithmetic::div_mod::lemma_div_multiples_vanish(a, size);
    } else {
        assert(a < 0) by (nonlinear_arith)
            requires
                a == v * factor,
                v < 0,
                factor >= 1,
        ;
        assert(size * a < 0) by (nonlinear_arith)
            requires
                size > 0,
                a < 0,
        ;
        assert(-(size * a) == size * (-a)) by (nonlinear_arith);
        vstd::arithmetic::div_mod::lemma_div_multiples_vanish(-a, size);
    }
}

/// An upscale by whole factors multiplies position and size, as long as the results fit.
pub proof fn law_whole_upscale_multiplies(ratio: ScaleRatio, rect: Rect, fx: int, fy: int)
    requires
        ratio.in_w > 0,
        ratio.in_h > 0,
        fx >= 1,
        fy >= 1,
        ratio.out_w == ratio.in_w * fx,
        ratio.out_h == ratio.in_h * fy,
        rect.measurable(),
        i32::MIN <= rect.left * fx <= i32::MAX,
        i32::MIN <= rect.top * fy <= i32::MAX,
        i32::MIN <= (rect.right - rect.left) * fx <= i32::MAX,
        i32::MIN <= (rect.bottom - rect.top) * fy <= i32::MAX,
    ensures
        ratio.scaled_rect(rect) == Rect::of(
            rect.left * fx,
            rect.top * fy,
            (rect.right - rect.left) * fx,
            (rect.bottom - rect.top) * fy,
        ),
{
    lemma_multiple_scale(rect.left as int, ratio.in_w as int, fx);
    lemma_multiple_scale(rect.top as int, ratio.in_h as int, fy);
    lemma_multiple_scale(rect.right - rect.left, ratio.in_w as int, fx);
    lemma_multiple_scale(rect.bottom - rect.top, ratio.in_h as int, fy);
}

/// The parts of an extent, scaled down or up, stay within the scaled extent.
proof fn lemma_scaled_parts(start: int, length: int, in_size: int, out_size: int)
    requires
        0 <= start,
        0 <= length,
        start + length <= in_size <= i32::MAX,
        0 < in_size,
        0 <= out_size <= i32::MAX,
    ensures
        0 <= scaled(start, in_size, out_size),
        0 <= scaled(length, in_size, out_size),
        scaled(start, in_size, out_size) + scaled(length, in_size, out_size) <= out_size,
{
    let a = (start * out_size) / in_size;
    let b = (length * out_size) / in_size;
    assert(start * out_size >= 0) by (nonlinear_arith)
        requires
            start >= 0,
            out_size >= 0,
    ;
    assert(length * out_size >= 0) by (nonlinear_arith)
        requires
            length >= 0,
            out_size >= 0,
    ;
    vstd::arithmetic::div_mod::lemma_fundamental_div_mod(start * out_size, in_size);
    vstd::arithmetic::div_mod::lemma_fundamental_div_mod(length * out_size, in_size);
    vstd::arithmetic::div_mod::lemma_div_pos_is_pos(start * out_size, in_size);
    vstd::arithmetic::div_mod::lemma_div_pos_is_pos(length * out_size, in_size);
    assert(a + b <= out_size) by (nonlinear_arith)
        requires
            in_size * a <= start * out_size,
            in_size * b <= length * out_size,
            start + length <= in_size,
            in_size > 0,
            out_size >= 0,
    {
        assert(in_size * (a + b) <= (start + length) * out_size);
        assert((start + length) * out_size <= in_size * out_size);
    }
}

/// A pure scale never moves a rectangle outside the frame.
pub proof fn law_scale_stays_in_frame(ratio: ScaleRatio, rect: Rect)
    requires
        ratio.in_w > 0,
        ratio.in_h > 0,
        ratio.out_w >= 0,
        ratio.out_h >= 0,
        0 <= rect.left <= rect.right <= ratio.in_w,
        0 <= rect.top <= rect.bottom <= ratio.in_h,
    ensures
        0 <= ratio.scaled_rect(rect).left <= ratio.scaled_rect(rect).right <= ratio.out_w,
        0 <= ratio.scaled_rect(rect).top <= ratio.scaled_rect(rect).bottom <= ratio.out_h,
{
    lemma_scaled_parts(
        rect.left as int,
        rect.right - rect.left,
        ratio.in_w as int,
        ratio.out_w as int,
    );
    lemma_scaled_parts(
        rect.top as int,
        rect.bottom - rect.top,
        ratio.in_h as int,
        ratio.out_h as int,
    );
}

/// A quotient of a number that is in the coordinate range times the divisor is in that range.
proof fn lemma_quotient_fits(a: int, q: int, d: int)
    requires
        0 <= a <= 0x8000_0000 * d,
        0 < d,
        q == a / d,
    ensures
        0 <= q <= 0x8000_0000,
        d * q <= a < d * q + d,
        q * d == d * q,
        (-q) * d == -(d * q),
        a <= 0x7fff_ffff * d ==> q <= 0x7fff_ffff,
{
    vstd::arithmetic::div_mod::lemma_fundamental_div_mod(a, d);
    assert(0 <= q <= 0x8000_0000) by (nonlinear_arith)
        requires
            d * q <= a,
            a < d * q + d,
            0 <= a <= 0x8000_0000 * d,
            0 < d,
    ;
    assert(a <= 0x7fff_ffff * d ==> q <= 0x7fff_ffff) by (nonlinear_arith)
        requires
            d * q <= a,
            0 < d,
    ;
    assert(q * d == d * q && (-q) * d == -(d * q)) by (nonlinear_arith);
}

/// A scaled coordinate is the exact one with its fraction dropped, as long as that fits.
pub proof fn law_scaled_coordinates_are_rounded_toward_zero(v: int, in_size: int, out_size: int)
    requires
        0 < in_size,
        0 <= out_size,
        i32::MIN * in_size <= v * out_size <= i32::MAX * in_size,
    ensures
        v >= 0 ==> scaled(v, in_size, out_size) * in_size <= v * out_size < (scaled(
            v,
            in_size,
            out_size,
        ) + 1) * in_size,
        v <= 0 ==> (scaled(v, in_size, out_size) - 1) * in_size < v * out_size <= scaled(
            v,
            in_size,
            out_size,
        ) * in_size,
{
    let product = v * out_size;
    if product >= 0 {
        let q = product / in_size;
        vstd::arithmetic::div_mod::lemma_fundamental_div_mod(product, in_size);
        lemma_quotient_fits(product, q, in_size);
    } else {
        let q = (-product) / in_size;
        vstd::arithmetic::div_mod::lemma_fundamental_div_mod(-product, in_size);
        lemma_quotient_fits(-product, q, in_size);
    }
    assert(v >= 0 ==> product >= 0) by (nonlinear_arith)
        requires
            product == v * out_size,
            out_size >= 0,
    ;
    assert(v <= 0 ==> product <= 0) by (nonlinear_arith)
        requires
            product == v * out_size,
            out_size >= 0,
    ;
    let s = scaled(v, in_size, out_size);
    assert((s + 1) * in_size == s * in_size + in_size) by (nonlinear_arith);
    assert((s - 1) * in_size == s * in_size - in_size) by (nonlinear_arith);
}

/// The horizontal coordinates of a rectangle follow the widths of the frames, the vertical
/// ones the heights.
pub proof fn law_each_axis_is_scaled_by_its_own_ratio(
    a: ScaleRatio,
    b: ScaleRatio,
    rect: Rect,
)
    ensures
        a.in_w == b.in_w && a.out_w == b.out_w ==> a.scaled_rect(rect).left == b.scaled_rect(
            rect,
        ).left && a.scaled_rect(rect).right == b.scaled_rect(rect).right,
        a.in_h == b.in_h && a.out_h == b.out_h ==> a.scaled_rect(rect).top == b.scaled_rect(
            rect,
        ).top && a.scaled_rect(rect).bottom == b.scaled_rect(rect).bottom,
{
}

/// Rectangles follow a copy, a scale between known sizes and a matrix that is there. No
/// other transform has a map, so that no rectangle is carried with stale coordinates.
pub proof fn law_unknown_transforms_have_no_map(transform: MetaTransform)
    ensures
        (transform.map() is None) == (transform == MetaTransform::Unknown || transform
            == MetaTransform::Scale(None) || transform == (MetaTransform::Matrix {
            described: false,
        })),
        transform == MetaTransform::Copy ==> transform.map() == Some(RectMap::Identity),
        transform matches MetaTransform::Scale(Some(ratio)) ==> transform.map() == Some(
            RectMap::Ratio(ratio),
        ),
        transform == (MetaTransform::Matrix { described: true }) ==> transform.map() == Some(
            RectMap::Matrix,
        ),
{
}

} // verus!
