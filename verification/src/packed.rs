//! Drawing on packed four-byte pixels, for formats that the main renderer cannot take.

use vstd::prelude::*;

use crate::render::DrawCommand;
use crate::scalar::Scalar;

verus! {

/// The video formats that the overlays tell apart.
#[derive(Debug, Clone, Copy, PartialEq, Eq, Structural)]
pub enum VideoFormat {
    Bgra,
    Bgrx,
    Rgba,
    Rgbx,
    Argb,
    Xrgb,
    Abgr,
    Xbgr,
    Ayuv,
    /// Any other format.
    Other,
}

/// The pixel formats that the main renderer draws on.
#[derive(Debug, Clone, Copy, PartialEq, Eq, Structural)]
pub enum CanvasFormat {
    Rgba8888,
    Rgb888x,
    Bgra8888,
}

/// Where the bytes of a pixel lie.
#[derive(Debug, Clone, Copy, PartialEq, Eq, Structural)]
pub struct PackedPixelLayout {
    pub alpha: Option<usize>,
    pub red: usize,
    pub green: usize,
    pub blue: usize,
}

impl PackedPixelLayout {
    /// The channels lie at different places of the four bytes.
    pub open spec fn sound(self) -> bool {
        &&& self.red < 4
        &&& self.green < 4
        &&& self.blue < 4
        &&& self.red != self.green
        &&& self.red != self.blue
        &&& self.green != self.blue
        &&& self.alpha matches Some(alpha) ==> alpha < 4 && alpha != self.red && alpha
            != self.green && alpha != self.blue
    }
}

/// The layout of the formats that can be drawn pixel by pixel.
pub open spec fn layout_of(format: VideoFormat) -> Option<PackedPixelLayout> {
    match format {
        VideoFormat::Bgra => Some(
            PackedPixelLayout { alpha: Some(3usize), red: 2, green: 1, blue: 0 },
        ),
        VideoFormat::Bgrx => Some(PackedPixelLayout { alpha: None, red: 2, green: 1, blue: 0 }),
        VideoFormat::Rgba => Some(
            PackedPixelLayout { alpha: Some(3usize), red: 0, green: 1, blue: 2 },
        ),
        VideoFormat::Rgbx => Some(PackedPixelLayout { alpha: None, red: 0, green: 1, blue: 2 }),
        VideoFormat::Argb => Some(
            PackedPixelLayout { alpha: Some(0usize), red: 1, green: 2, blue: 3 },
        ),
        VideoFormat::Xrgb => Some(PackedPixelLayout { alpha: None, red: 1, green: 2, blue: 3 }),
        VideoFormat::Abgr => Some(
            PackedPixelLayout { alpha: Some(0usize), red: 3, green: 2, blue: 1 },
        ),
        VideoFormat::Xbgr => Some(PackedPixelLayout { alpha: None, red: 3, green: 2, blue: 1 }),
        _ => None,
    }
}

/// The layout of a format's pixels, or `None` for a format that cannot be drawn on.
pub fn packed_pixel_layout(format: VideoFormat) -> (r: Option<PackedPixelLayout>)
    ensures
        r == layout_of(format),
        r matches Some(layout) ==> layout.sound(),
{
    match format {
        VideoFormat::Bgra => Some(PackedPixelLayout { alpha: Some(3), red: 2, green: 1, blue: 0 }),
        VideoFormat::Bgrx => Some(PackedPixelLayout { alpha: None, red: 2, green: 1, blue: 0 }),
        VideoFormat::Rgba => Some(PackedPixelLayout { alpha: Some(3), red: 0, green: 1, blue: 2 }),
        VideoFormat::Rgbx => Some(PackedPixelLayout { alpha: None, red: 0, green: 1, blue: 2 }),
        VideoFormat::Argb => Some(PackedPixelLayout { alpha: Some(0), red: 1, green: 2, blue: 3 }),
        VideoFormat::Xrgb => Some(PackedPixelLayout { alpha: None, red: 1, green: 2, blue: 3 }),
        VideoFormat::Abgr => Some(PackedPixelLayout { alpha: Some(0), red: 3, green: 2, blue: 1 }),
        VideoFormat::Xbgr => Some(PackedPixelLayout { alpha: None, red: 3, green: 2, blue: 1 }),
        _ => None,
    }
}

/// The canvas format for the formats that the main renderer takes.
pub open spec fn canvas_of(format: VideoFormat) -> Option<CanvasFormat> {
    match format {
        VideoFormat::Rgba => Some(CanvasFormat::Rgba8888),
        VideoFormat::Rgbx => Some(CanvasFormat::Rgb888x),
        VideoFormat::Bgra => Some(CanvasFormat::Bgra8888),
        VideoFormat::Bgrx => Some(CanvasFormat::Bgra8888),
        _ => None,
    }
}

/// The canvas format for a video format, or `None` for one that the main renderer cannot
/// draw on.
pub fn canvas_format(format: VideoFormat) -> (r: Option<CanvasFormat>)
    ensures
        r == canvas_of(format),
{
    match format {
        VideoFormat::Rgba => Some(CanvasFormat::Rgba8888),
        VideoFormat::Rgbx => Some(CanvasFormat::Rgb888x),
        VideoFormat::Bgra => Some(CanvasFormat::Bgra8888),
        VideoFormat::Bgrx => Some(CanvasFormat::Bgra8888),
        _ => None,
    }
}

/// How a frame is drawn on.
#[derive(Debug, Clone, Copy, PartialEq, Eq, Structural)]
pub enum RenderPath {
    /// With the main renderer.
    Canvas(CanvasFormat),
    /// Pixel by pixel.
    Packed(PackedPixelLayout),
    /// Not at all: frames of other formats pass unchanged.
    Skip,
}

/// How a frame of the given format is drawn on: with the main renderer where it can, else
/// pixel by pixel where the layout is known.
pub fn render_path(format: VideoFormat) -> (r: RenderPath)
    ensures
        r == match (canvas_of(format), layout_of(format)) {
            (Some(canvas), _) => RenderPath::Canvas(canvas),
            (None, Some(layout)) => RenderPath::Packed(layout),
            (None, None) => RenderPath::Skip,
        },
{
    match canvas_format(format) {
        Some(canvas) => RenderPath::Canvas(canvas),
        None => match packed_pixel_layout(format) {
            Some(layout) => RenderPath::Packed(layout),
            None => RenderPath::Skip,
        },
    }
}

/// The byte of an ARGB colour, counted from the blue one.
pub open spec fn channel(argb: u32, i: int) -> u8 {
    (if i == 0 {
        argb as int % 0x100
    } else if i == 1 {
        argb as int / 0x100 % 0x100
    } else if i == 2 {
        argb as int / 0x1_0000 % 0x100
    } else {
        argb as int / 0x100_0000
    }) as u8
}

/// The byte at place `c` of a pixel after a colour was written to it.
pub open spec fn painted(layout: PackedPixelLayout, argb: u32, c: int, before: u8) -> u8 {
    if layout.red == c {
        channel(argb, 2)
    } else if layout.green == c {
        channel(argb, 1)
    } else if layout.blue == c {
        channel(argb, 0)
    } else if layout.alpha matches Some(alpha) && alpha == c {
        channel(argb, 3)
    } else {
        before
    }
}

/// Write a colour to the pixel that starts at `at`.
pub fn write_packed_pixel(data: &mut Vec<u8>, at: usize, layout: PackedPixelLayout, argb: u32)
    requires
        layout.sound(),
        at + 4 <= old(data).len(),
    ensures
        final(data)@.len() == old(data)@.len(),
        forall|k: int|
            0 <= k < old(data)@.len() ==> #[trigger] final(data)@[k] == if at <= k < at + 4 {
                painted(layout, argb, k - at, old(data)@[k])
            } else {
                old(data)@[k]
            },
{
    let alpha: u8 = (argb / 0x100_0000) as u8;
    let red: u8 = (argb / 0x1_0000 % 0x100) as u8;
    let green: u8 = (argb / 0x100 % 0x100) as u8;
    let blue: u8 = (argb % 0x100) as u8;
    if let Some(place) = layout.alpha {
        data.set(at + place, alpha);
    }
    data.set(at + layout.red, red);
    data.set(at + layout.green, green);
    data.set(at + layout.blue, blue);
}

/// A frame of packed pixels, row by row; a row may be longer than its pixels.
#[derive(Debug)]
pub struct PackedSurface {
    pub data: Vec<u8>,
    pub stride: usize,
    pub width: usize,
    pub height: usize,
    pub layout: PackedPixelLayout,
}

impl PackedSurface {
    /// Rows do not overlap, and every pixel is there.
    pub open spec fn sound(self) -> bool {
        &&& self.layout.sound()
        &&& self.width * 4 <= self.stride
        &&& self.height * self.stride <= usize::MAX
        &&& self.width > 0 && self.height > 0 ==> (self.height - 1) * self.stride + self.width * 4
            <= self.data@.len()
    }

    /// The same frame with other bytes.
    pub open spec fn same_shape(self, other: PackedSurface) -> bool {
        &&& self.data@.len() == other.data@.len()
        &&& self.stride == other.stride
        &&& self.width == other.width
        &&& self.height == other.height
        &&& self.layout == other.layout
    }

    /// The byte at `k` belongs to a pixel of the mask.
    pub open spec fn lit(self, k: int, mask: spec_fn(int, int) -> bool) -> bool {
        let x = k % (self.stride as int) / 4;
        let y = k / (self.stride as int);
        0 <= x < self.width && 0 <= y < self.height && mask(x, y)
    }

    /// The bytes after the pixels of the mask got a colour.
    pub open spec fn shaded(self, argb: u32, mask: spec_fn(int, int) -> bool) -> Seq<u8> {
        Seq::new(
            self.data@.len(),
            |k: int|
                if self.lit(k, mask) {
                    painted(self.layout, argb, k % (self.stride as int) % 4, self.data@[k])
                } else {
                    self.data@[k]
                },
        )
    }
}

/// Where the bytes of the pixel `(x, y)` lie.
proof fn lemma_pixel_bytes(s: PackedSurface, x: int, y: int, k: int)
    requires
        s.sound(),
        0 <= x < s.width,
        0 <= y < s.height,
        0 <= k,
    ensures
        y * s.stride + x * 4 + 4 <= s.data@.len(),
        y * s.stride + x * 4 + 4 <= usize::MAX,
        (y * s.stride + x * 4 <= k < y * s.stride + x * 4 + 4) == (k / (s.stride as int) == y && k
            % (s.stride as int) / 4 == x),
        y * s.stride + x * 4 <= k < y * s.stride + x * 4 + 4 ==> k % (s.stride as int) % 4 == k - (y
            * s.stride + x * 4),
{
    let w = s.stride as int;
    let start = y * w + x * 4;
    let n = s.height as int;
    assert(y * w <= (n - 1) * w) by (nonlinear_arith)
        requires
            y <= n - 1,
            w >= 0,
    ;
    assert((n - 1) * w + w == n * w) by (nonlinear_arith);
    if start <= k < start + 4 {
        let o = k - y * w;
        assert(k == w * y + o) by (nonlinear_arith)
            requires
                o == k - y * w,
        ;
        vstd::arithmetic::div_mod::lemma_fundamental_div_mod_converse(k, w, y, o);
    }
    if k / w == y && k % w / 4 == x {
        vstd::arithmetic::div_mod::lemma_fundamental_div_mod(k, w);
        assert(w * y == y * w) by (nonlinear_arith);
    }
}

/// Write a colour to a pixel of the frame.
fn set_pixel(surface: &mut PackedSurface, column: usize, row: usize, argb: u32)
    requires
        old(surface).sound(),
        column < old(surface).width,
        row < old(surface).height,
    ensures
        final(surface).sound(),
        final(surface).same_shape(*old(surface)),
        final(surface).data@ == old(surface).shaded(
            argb,
            |px: int, py: int| px == column && py == row,
        ),
{
    let ghost before = *surface;
    proof {
        lemma_pixel_bytes(before, column as int, row as int, 0);
        let w = before.stride as int;
        let r = row as int;
        let n = before.height as int;
        assert(0 <= r * w <= n * w) by (nonlinear_arith)
            requires
                0 <= r <= n,
                w >= 0,
        ;
    }
    let at: usize = row * surface.stride + column * 4;
    write_packed_pixel(&mut surface.data, at, surface.layout, argb);
    proof {
        let mask = |px: int, py: int| px == column && py == row;
        assert forall|k: int| 0 <= k < before.data@.len() implies surface.data@[k]
            == #[trigger] before.shaded(argb, mask)[k] by {
            lemma_pixel_bytes(before, column as int, row as int, k);
        }
        assert(surface.data@ =~= before.shaded(argb, mask));
    }
}

/// Write a colour to the pixel `(x, y)`; positions outside the frame are ignored.
pub fn set_surface_pixel(surface: &mut PackedSurface, x: i32, y: i32, argb: u32)
    requires
        old(surface).sound(),
    ensures
        final(surface).sound(),
        final(surface).same_shape(*old(surface)),
        final(surface).data@ == old(surface).shaded(argb, |px: int, py: int| px == x && py == y),
{
    let ghost before = *surface;
    let ghost mask = |px: int, py: int| px == x && py == y;
    if x < 0 || y < 0 {
        assert(surface.data@ =~= before.shaded(argb, mask));
        return;
    }
    let column: usize = x as usize;
    let row: usize = y as usize;
    if column >= surface.width || row >= surface.height {
        assert(surface.data@ =~= before.shaded(argb, mask));
        return;
    }
    set_pixel(surface, column, row, argb);
    assert(surface.data@ =~= before.shaded(argb, mask));
}

/// The pixels of a rectangle's outline, or of its area.
pub open spec fn box_mask(
    left: int,
    top: int,
    right: int,
    bottom: int,
    filled: bool,
) -> spec_fn(int, int) -> bool {
    |x: int, y: int|
        left <= x < right && top <= y < bottom && (filled || y == top || y + 1 == bottom || x
            == left || x + 1 == right)
}

/// Shading one pixel more.
proof fn lemma_shade_more(
    start: PackedSurface,
    between: PackedSurface,
    argb: u32,
    done: spec_fn(int, int) -> bool,
    more: spec_fn(int, int) -> bool,
    all: spec_fn(int, int) -> bool,
)
    requires
        between.same_shape(start),
        between.data@ == start.shaded(argb, done),
        forall|x: int, y: int|
            0 <= x < start.width && 0 <= y < start.height ==> #[trigger] all(x, y) == (done(x, y)
                || more(x, y)),
    ensures
        between.shaded(argb, more) == start.shaded(argb, all),
{
    assert forall|k: int| 0 <= k < start.data@.len() implies #[trigger] between.shaded(
        argb,
        more,
    )[k] == start.shaded(argb, all)[k] by {
        let x = k % (start.stride as int) / 4;
        let y = k / (start.stride as int);
        assert(start.lit(k, all) == (0 <= x < start.width && 0 <= y < start.height && all(x, y)));
        assert(between.data@[k] == start.shaded(argb, done)[k]);
    }
    assert(between.shaded(argb, more) =~= start.shaded(argb, all));
}

/// Two masks that agree on the frame shade alike.
proof fn lemma_same_mask(
    s: PackedSurface,
    argb: u32,
    a: spec_fn(int, int) -> bool,
    b: spec_fn(int, int) -> bool,
)
    requires
        forall|x: int, y: int|
            0 <= x < s.width && 0 <= y < s.height ==> #[trigger] a(x, y) == b(x, y),
    ensures
        s.shaded(argb, a) == s.shaded(argb, b),
{
    assert forall|k: int| 0 <= k < s.data@.len() implies #[trigger] s.shaded(argb, a)[k]
        == s.shaded(argb, b)[k] by {
        let x = k % (s.stride as int) / 4;
        let y = k / (s.stride as int);
        assert(s.lit(k, a) == (0 <= x < s.width && 0 <= y < s.height && a(x, y)));
    }
    assert(s.shaded(argb, a) =~= s.shaded(argb, b));
}

/// Draw the rectangle between the given edges, clipped to the frame: its one-pixel
/// outline, or all of it.
pub fn draw_packed_rectangle(
    surface: &mut PackedSurface,
    left: usize,
    top: usize,
    right: usize,
    bottom: usize,
    argb: u32,
    filled: bool,
)
    requires
        old(surface).sound(),
    ensures
        final(surface).sound(),
        final(surface).same_shape(*old(surface)),
        final(surface).data@ == old(surface).shaded(
            argb,
            box_mask(
                left as int,
                top as int,
                crate::geometry::int_min(right as int, old(surface).width as int),
                crate::geometry::int_min(bottom as int, old(surface).height as int),
                filled,
            ),
        ),
{
    let ghost start = *surface;
    let right: usize = if right < surface.width {
        right
    } else {
        surface.width
    };
    let bottom: usize = if bottom < surface.height {
        bottom
    } else {
        surface.height
    };
    let ghost mask = box_mask(left as int, top as int, right as int, bottom as int, filled);
    if left >= right || top >= bottom {
        assert(surface.data@ =~= start.shaded(argb, mask));
        return;
    }
    let mut row: usize = top;
    assert(surface.data@ =~= start.shaded(argb, |x: int, y: int| mask(x, y) && y < row));
    while row < bottom
        invariant
            top <= row <= bottom <= start.height,
            left < right <= start.width,
            surface.sound(),
            surface.same_shape(start),
            mask == box_mask(left as int, top as int, right as int, bottom as int, filled),
            surface.data@ == start.shaded(argb, |x: int, y: int| mask(x, y) && y < row),
        decreases bottom - row,
    {
        let mut column: usize = left;
        proof {
            lemma_same_mask(
                start,
                argb,
                |x: int, y: int| mask(x, y) && y < row,
                |x: int, y: int| mask(x, y) && (y < row || (y == row && x < column)),
            );
        }
        while column < right
            invariant
                top <= row < bottom <= start.height,
                left <= column <= right <= start.width,
                surface.sound(),
                surface.same_shape(start),
                mask == box_mask(left as int, top as int, right as int, bottom as int, filled),
                surface.data@ == start.shaded(
                    argb,
                    |x: int, y: int| mask(x, y) && (y < row || (y == row && x < column)),
                ),
            decreases right - column,
        {
            let ghost between = *surface;
            let ghost done = |x: int, y: int|
                mask(x, y) && (y < row || (y == row && x < column));
            let ghost all = |x: int, y: int|
                mask(x, y) && (y < row || (y == row && x < column + 1));
            if filled || row == top || row + 1 == bottom || column == left || column + 1 == right {
                set_pixel(surface, column, row, argb);
                proof {
                    lemma_shade_more(
                        start,
                        between,
                        argb,
                        done,
                        |px: int, py: int| px == column && py == row,
                        all,
                    );
                }
            } else {
                proof {
                    lemma_same_mask(start, argb, done, all);
                }
            }
            column = column + 1;
        }
        proof {
            lemma_same_mask(
                start,
                argb,
                |x: int, y: int| mask(x, y) && (y < row || (y == row && x < column)),
                |x: int, y: int| mask(x, y) && y < row + 1,
            );
        }
        row = row + 1;
    }
    proof {
        lemma_same_mask(start, argb, |x: int, y: int| mask(x, y) && y < row, mask);
    }
}

/// The outline of the box that stands for a character, relative to its corner.
pub open spec fn glyph(column: int, row: int) -> bool {
    0 <= column < 6 && 0 <= row < 10 && (row == 0 || row == 9 || column == 0 || column == 5)
}

/// The boxes of `count` characters, eight pixels apart.
pub open spec fn text_mask(pen_x: int, pen_y: int, count: int) -> spec_fn(int, int) -> bool {
    |x: int, y: int| 0 <= x - pen_x < 8 * count && glyph((x - pen_x) % 8, y - pen_y)
}

/// Draw a text of up to 64 characters, each as a box.
pub fn draw_packed_text(
    surface: &mut PackedSurface,
    pen_x: i32,
    pen_y: i32,
    text: &str,
    argb: u32,
)
    requires
        old(surface).sound(),
        pen_x + 8 * crate::geometry::int_min(text@.len() as int, 64) <= i32::MAX,
        pen_y + 9 <= i32::MAX,
    ensures
        final(surface).sound(),
        final(surface).same_shape(*old(surface)),
        final(surface).data@ == old(surface).shaded(
            argb,
            text_mask(
                pen_x as int,
                pen_y as int,
                crate::geometry::int_min(text@.len() as int, 64),
            ),
        ),
{
    let ghost start = *surface;
    let length: usize = text.unicode_len();
    let count: usize = if length < 64 {
        length
    } else {
        64
    };
    let ghost px = pen_x as int;
    let ghost py = pen_y as int;
    let mut i: usize = 0;
    let mut x: i32 = pen_x;
    assert(surface.data@ =~= start.shaded(argb, text_mask(px, py, 0)));
    while i < count
        invariant
            i <= count <= 64,
            px == pen_x,
            py == pen_y,
            x == px + 8 * i,
            px + 8 * count <= i32::MAX,
            py + 9 <= i32::MAX,
            surface.sound(),
            surface.same_shape(start),
            surface.data@ == start.shaded(argb, text_mask(px, py, i as int)),
        decreases count - i,
    {
        draw_glyph(surface, x, pen_y, argb, Ghost(start), Ghost(px), Ghost(i as int));
        x = x + 8;
        i = i + 1;
    }
}

/// Draw the box of one character behind the ones already drawn.
fn draw_glyph(
    surface: &mut PackedSurface,
    x: i32,
    y: i32,
    argb: u32,
    Ghost(start): Ghost<PackedSurface>,
    Ghost(px): Ghost<int>,
    Ghost(i): Ghost<int>,
)
    requires
        old(surface).sound(),
        old(surface).same_shape(start),
        0 <= i < 64,
        x == px + 8 * i,
        x + 5 <= i32::MAX,
        y + 9 <= i32::MAX,
        old(surface).data@ == start.shaded(argb, text_mask(px, y as int, i)),
    ensures
        final(surface).sound(),
        final(surface).same_shape(start),
        final(surface).data@ == start.shaded(argb, text_mask(px, y as int, i + 1)),
{
    let ghost earlier = text_mask(px, y as int, i);
    let mut row: i32 = 0;
    proof {
        lemma_same_mask(
            start,
            argb,
            earlier,
            |a: int, b: int| earlier(a, b) || (glyph(a - x, b - y) && b - y < row),
        );
    }
    while row < 10
        invariant
            0 <= row <= 10,
            x + 5 <= i32::MAX,
            y + 9 <= i32::MAX,
            earlier == text_mask(px, y as int, i),
            surface.sound(),
            surface.same_shape(start),
            surface.data@ == start.shaded(
                argb,
                |a: int, b: int| earlier(a, b) || (glyph(a - x, b - y) && b - y < row),
            ),
        decreases 10 - row,
    {
        let mut column: i32 = 0;
        proof {
            lemma_same_mask(
                start,
                argb,
                |a: int, b: int| earlier(a, b) || (glyph(a - x, b - y) && b - y < row),
                |a: int, b: int|
                    earlier(a, b) || (glyph(a - x, b - y) && (b - y < row || (b - y == row && a - x
                        < column))),
            );
        }
        while column < 6
            invariant
                0 <= row < 10,
                0 <= column <= 6,
                x + 5 <= i32::MAX,
                y + 9 <= i32::MAX,
                earlier == text_mask(px, y as int, i),
                surface.sound(),
                surface.same_shape(start),
                surface.data@ == start.shaded(
                    argb,
                    |a: int, b: int|
                        earlier(a, b) || (glyph(a - x, b - y) && (b - y < row || (b - y == row && a
                            - x < column))),
                ),
            decreases 6 - column,
        {
            let ghost between = *surface;
            let ghost done = |a: int, b: int|
                earlier(a, b) || (glyph(a - x, b - y) && (b - y < row || (b - y == row && a - x
                    < column)));
            let ghost all = |a: int, b: int|
                earlier(a, b) || (glyph(a - x, b - y) && (b - y < row || (b - y == row && a - x
                    < column + 1)));
            if row == 0 || row == 9 || column == 0 || column == 5 {
                let at_x: i32 = x + column;
                let at_y: i32 = y + row;
                set_surface_pixel(surface, at_x, at_y, argb);
                proof {
                    lemma_shade_more(
                        start,
                        between,
                        argb,
                        done,
                        |a: int, b: int| a == at_x && b == at_y,
                        all,
                    );
                }
            } else {
                proof {
                    lemma_same_mask(start, argb, done, all);
                }
            }
            column = column + 1;
        }
        proof {
            lemma_same_mask(
                start,
                argb,
                |a: int, b: int|
                    earlier(a, b) || (glyph(a - x, b - y) && (b - y < row || (b - y == row && a - x
                        < column))),
                |a: int, b: int| earlier(a, b) || (glyph(a - x, b - y) && b - y < row + 1),
            );
        }
        row = row + 1;
    }
    proof {
        lemma_same_mask(
            start,
            argb,
            |a: int, b: int| earlier(a, b) || (glyph(a - x, b - y) && b - y < row),
            text_mask(px, y as int, i + 1),
        );
    }
}

/// Draw the pixels of a disc: of the pixels between the given edges, those that `inside`
/// names. The edges belong to the disc's extent.
pub fn draw_packed_circle<F: Fn(i32, i32) -> bool>(
    surface: &mut PackedSurface,
    left: i32,
    top: i32,
    right: i32,
    bottom: i32,
    inside: F,
    argb: u32,
)
    requires
        old(surface).sound(),
        right < i32::MAX,
        bottom < i32::MAX,
        forall|x: i32, y: i32|
            left <= x <= right && top <= y <= bottom ==> inside.requires((x, y)),
    ensures
        final(surface).sound(),
        final(surface).same_shape(*old(surface)),
        exists|mask: spec_fn(int, int) -> bool|
            {
                &&& final(surface).data@ == #[trigger] old(surface).shaded(argb, mask)
                &&& forall|x: i32, y: i32|
                    left <= x <= right && top <= y <= bottom ==> inside.ensures(
                        (x, y),
                        #[trigger] mask(x as int, y as int),
                    )
                &&& forall|x: int, y: int|
                    #[trigger] mask(x, y) ==> left <= x <= right && top <= y <= bottom
            },
{
    let ghost start = *surface;
    let ghost mut mask: spec_fn(int, int) -> bool = |x: int, y: int| false;
    assert(surface.data@ =~= start.shaded(argb, mask));
    let mut y: i32 = top;
    while y <= bottom
        invariant
            bottom < i32::MAX,
            right < i32::MAX,
            top <= y,
            top <= bottom ==> y <= bottom + 1,
            top > bottom ==> y == top,
            surface.sound(),
            surface.same_shape(start),
            forall|a: i32, b: i32|
                left <= a <= right && top <= b <= bottom ==> inside.requires((a, b)),
            surface.data@ == start.shaded(argb, mask),
            forall|a: i32, b: i32|
                left <= a <= right && top <= b < y ==> inside.ensures(
                    (a, b),
                    #[trigger] mask(a as int, b as int),
                ),
            forall|a: int, b: int| #[trigger] mask(a, b) ==> left <= a <= right && top <= b < y,
        decreases bottom - y + 1,
    {
        let mut x: i32 = left;
        while x <= right
            invariant
                bottom < i32::MAX,
                right < i32::MAX,
                top <= y <= bottom,
                left <= x,
                left <= right ==> x <= right + 1,
                left > right ==> x == left,
                surface.sound(),
                surface.same_shape(start),
                forall|a: i32, b: i32|
                    left <= a <= right && top <= b <= bottom ==> inside.requires((a, b)),
                surface.data@ == start.shaded(argb, mask),
                forall|a: i32, b: i32|
                    left <= a <= right && top <= b <= y && (b < y || a < x) ==> inside.ensures(
                        (a, b),
                        #[trigger] mask(a as int, b as int),
                    ),
                forall|a: int, b: int|
                    #[trigger] mask(a, b) ==> left <= a <= right && top <= b <= y && (b < y || a
                        < x),
            decreases right - x + 1,
        {
            let ghost between = *surface;
            let ghost done = mask;
            let hit: bool = inside(x, y);
            if hit {
                set_surface_pixel(surface, x, y, argb);
                proof {
                    mask = |a: int, b: int| done(a, b) || (a == x && b == y);
                    lemma_shade_more(
                        start,
                        between,
                        argb,
                        done,
                        |a: int, b: int| a == x && b == y,
                        mask,
                    );
                }
            }
            proof {
                assert(mask(x as int, y as int) == hit);
                assert forall|a: i32, b: i32|
                    left <= a <= right && top <= b <= y && (b < y || a < x + 1) implies
                    inside.ensures((a, b), #[trigger] mask(a as int, b as int)) by {
                    if a == x && b == y {
                    } else {
                        assert(done(a as int, b as int) == mask(a as int, b as int));
                    }
                }
            }
            x = x + 1;
        }
        y = y + 1;
    }
}

/// The edges of a rectangle in whole pixels.
#[derive(Debug, Clone, Copy, PartialEq, Eq, Structural)]
pub struct PixelBox {
    pub left: usize,
    pub top: usize,
    pub right: usize,
    pub bottom: usize,
}

/// A disc, and the pixels that it may reach; the edges belong to them.
#[derive(Debug, Clone, Copy, PartialEq, Eq, Structural)]
pub struct Disc {
    pub left: i32,
    pub top: i32,
    pub right: i32,
    pub bottom: i32,
    pub cx: Scalar,
    pub cy: Scalar,
    pub radius: Scalar,
}

/// The mask holds the pixels of a disc that `inside` names.
pub open spec fn is_disc_mask<I: Fn(&Disc, i32, i32) -> bool>(
    inside: I,
    disc: Disc,
    mask: spec_fn(int, int) -> bool,
) -> bool {
    &&& forall|x: i32, y: i32|
        disc.left <= x <= disc.right && disc.top <= y <= disc.bottom ==> inside.ensures(
            (&disc, x, y),
            #[trigger] mask(x as int, y as int),
        )
    &&& forall|x: int, y: int|
        #[trigger] mask(x, y) ==> disc.left <= x <= disc.right && disc.top <= y <= disc.bottom
}

/// A disc was drawn.
pub open spec fn disc_drawn<I: Fn(&Disc, i32, i32) -> bool>(
    inside: I,
    disc: Disc,
    argb: u32,
    before: PackedSurface,
    after: PackedSurface,
) -> bool {
    &&& after.same_shape(before)
    &&& exists|mask: spec_fn(int, int) -> bool|
        after.data@ == #[trigger] before.shaded(argb, mask) && is_disc_mask(inside, disc, mask)
}

/// Discs were drawn one after the other.
pub open spec fn discs_drawn<I: Fn(&Disc, i32, i32) -> bool>(
    inside: I,
    discs: Seq<Disc>,
    argb: u32,
    before: PackedSurface,
    after: PackedSurface,
) -> bool
    decreases discs.len(),
{
    if discs.len() == 0 {
        after.same_shape(before) && after.data@ == before.data@
    } else {
        exists|between: PackedSurface|
            discs_drawn(inside, discs.drop_last(), argb, before, between)
                && #[trigger] disc_drawn(inside, discs.last(), argb, between, after)
    }
}

fn draw_discs<I: Fn(&Disc, i32, i32) -> bool>(
    surface: &mut PackedSurface,
    discs: &Vec<Disc>,
    argb: u32,
    inside: &I,
)
    requires
        old(surface).sound(),
        forall|disc: &Disc, x: i32, y: i32| inside.requires((disc, x, y)),
        forall|i: int|
            0 <= i < discs@.len() ==> (#[trigger] discs@[i]).right < i32::MAX && discs@[i].bottom
                < i32::MAX,
    ensures
        final(surface).sound(),
        final(surface).same_shape(*old(surface)),
        discs_drawn(*inside, discs@, argb, *old(surface), *final(surface)),
{
    let ghost start = *surface;
    let mut i: usize = 0;
    assert(discs@.take(0) =~= Seq::<Disc>::empty());
    while i < discs.len()
        invariant
            i <= discs.len(),
            forall|disc: &Disc, x: i32, y: i32| inside.requires((disc, x, y)),
            forall|k: int|
                0 <= k < discs@.len() ==> (#[trigger] discs@[k]).right < i32::MAX
                    && discs@[k].bottom < i32::MAX,
            surface.sound(),
            surface.same_shape(start),
            discs_drawn(*inside, discs@.take(i as int), argb, start, *surface),
        decreases discs.len() - i,
    {
        let disc = discs[i];
        assert(discs@[i as int].right < i32::MAX);
        let ghost between = *surface;
        let covers = |x: i32, y: i32| -> (r: bool)
            ensures
                inside.ensures((&disc, x, y), r),
            { inside(&disc, x, y) };
        draw_packed_circle(surface, disc.left, disc.top, disc.right, disc.bottom, covers, argb);
        proof {
            let mask = choose|mask: spec_fn(int, int) -> bool|
                {
                    &&& surface.data@ == #[trigger] between.shaded(argb, mask)
                    &&& forall|x: i32, y: i32|
                        disc.left <= x <= disc.right && disc.top <= y <= disc.bottom
                            ==> covers.ensures((x, y), #[trigger] mask(x as int, y as int))
                    &&& forall|x: int, y: int|
                        #[trigger] mask(x, y) ==> disc.left <= x <= disc.right && disc.top <= y
                            <= disc.bottom
                };
            assert(is_disc_mask(*inside, disc, mask));
            assert(disc_drawn(*inside, disc, argb, between, *surface));
            let next = discs@.take(i + 1);
            assert(next.drop_last() =~= discs@.take(i as int));
            assert(next.last() == disc);
        }
        i = i + 1;
    }
    assert(discs@.take(i as int) =~= discs@);
}

/// The mask of a text whose first box has its corner there.
pub open spec fn label_mask(
    pen_x: int,
    pen_y: int,
    text: Seq<char>,
) -> spec_fn(int, int) -> bool {
    text_mask(pen_x, pen_y, crate::geometry::int_min(text.len() as int, 64))
}

/// The pen of a text that starts at `x`.
pub open spec fn pen(x: Scalar) -> int {
    x.as_i32(x.floor())
}

/// A command was drawn. The arithmetic on the numbers in it is the functions': `edges` gives
/// a rectangle's pixels, `trace` the discs of a circle or a line, `inside` a disc's pixels,
/// and `lift` the upper end of a centered text.
pub open spec fn command_drawn<
    E: Fn(&DrawCommand) -> PixelBox,
    T: Fn(&DrawCommand) -> Vec<Disc>,
    I: Fn(&Disc, i32, i32) -> bool,
    L: Fn(&DrawCommand) -> i32,
>(
    edges: E,
    trace: T,
    inside: I,
    lift: L,
    command: DrawCommand,
    before: PackedSurface,
    after: PackedSurface,
) -> bool {
    &&& after.same_shape(before)
    &&& match command {
        DrawCommand::Rectangle { argb, filled, .. } => exists|edge: PixelBox|
            #[trigger] edges.ensures((&command,), edge) && after.data@ == before.shaded(
                argb,
                box_mask(
                    edge.left as int,
                    edge.top as int,
                    crate::geometry::int_min(edge.right as int, before.width as int),
                    crate::geometry::int_min(edge.bottom as int, before.height as int),
                    filled,
                ),
            ),
        DrawCommand::Circle { argb, .. } => exists|discs: Vec<Disc>|
            #[trigger] trace.ensures((&command,), discs) && discs_drawn(
                inside,
                discs@,
                argb,
                before,
                after,
            ),
        DrawCommand::Line { argb, .. } => exists|discs: Vec<Disc>|
            #[trigger] trace.ensures((&command,), discs) && discs_drawn(
                inside,
                discs@,
                argb,
                before,
                after,
            ),
        DrawCommand::Text { x, y, text, argb } => after.data@ == before.shaded(
            argb,
            label_mask(pen(x), pen(y), text@),
        ),
        DrawCommand::TextCentered { x, text, argb, .. } => exists|top: i32|
            #[trigger] lift.ensures((&command,), top) && after.data@ == before.shaded(
                argb,
                label_mask(pen(x), top as int, text@),
            ),
        DrawCommand::NoOp => after.data@ == before.data@,
    }
}

/// Commands were drawn one after the other.
pub open spec fn commands_drawn<
    E: Fn(&DrawCommand) -> PixelBox,
    T: Fn(&DrawCommand) -> Vec<Disc>,
    I: Fn(&Disc, i32, i32) -> bool,
    L: Fn(&DrawCommand) -> i32,
>(
    edges: E,
    trace: T,
    inside: I,
    lift: L,
    commands: Seq<DrawCommand>,
    before: PackedSurface,
    after: PackedSurface,
) -> bool
    decreases commands.len(),
{
    if commands.len() == 0 {
        after.same_shape(before) && after.data@ == before.data@
    } else {
        exists|between: PackedSurface|
            commands_drawn(edges, trace, inside, lift, commands.drop_last(), before, between)
                && #[trigger] command_drawn(
                edges,
                trace,
                inside,
                lift,
                commands.last(),
                between,
                after,
            )
    }
}

/// The pens of a text stay in the coordinate range.
pub open spec fn text_fits(command: DrawCommand) -> bool {
    match command {
        DrawCommand::Text { x, y, text, .. } => {
            &&& pen(x) + 8 * crate::geometry::int_min(text@.len() as int, 64) <= i32::MAX
            &&& pen(y) + 9 <= i32::MAX
        },
        DrawCommand::TextCentered { x, text, .. } => pen(x) + 8 * crate::geometry::int_min(
            text@.len() as int,
            64,
        ) <= i32::MAX,
        _ => true,
    }
}

/// Draw commands on a frame of packed pixels, for formats that no canvas takes.
pub fn render_packed<
    E: Fn(&DrawCommand) -> PixelBox,
    T: Fn(&DrawCommand) -> Vec<Disc>,
    I: Fn(&Disc, i32, i32) -> bool,
    L: Fn(&DrawCommand) -> i32,
>(
    surface: &mut PackedSurface,
    commands: &Vec<DrawCommand>,
    edges: &E,
    trace: &T,
    inside: &I,
    lift: &L,
)
    requires
        old(surface).sound(),
        forall|command: &DrawCommand| edges.requires((command,)),
        forall|command: &DrawCommand| trace.requires((command,)),
        forall|command: &DrawCommand| lift.requires((command,)),
        forall|disc: &Disc, x: i32, y: i32| inside.requires((disc, x, y)),
        forall|command: &DrawCommand, discs: Vec<Disc>, i: int|
            #[trigger] trace.ensures((command,), discs) && 0 <= i < discs@.len() ==> (
            #[trigger] discs@[i]).right < i32::MAX && discs@[i].bottom < i32::MAX,
        forall|command: &DrawCommand, top: i32| #[trigger]
            lift.ensures((command,), top) ==> top + 9 <= i32::MAX,
        forall|i: int| 0 <= i < commands@.len() ==> text_fits(#[trigger] commands@[i]),
    ensures
        final(surface).sound(),
        final(surface).same_shape(*old(surface)),
        commands_drawn(
            *edges,
            *trace,
            *inside,
            *lift,
            commands@,
            *old(surface),
            *final(surface),
        ),
{
    let ghost start = *surface;
    let mut i: usize = 0;
    assert(commands@.take(0) =~= Seq::<DrawCommand>::empty());
    while i < commands.len()
        invariant
            i <= commands.len(),
            forall|command: &DrawCommand| edges.requires((command,)),
            forall|command: &DrawCommand| trace.requires((command,)),
            forall|command: &DrawCommand| lift.requires((command,)),
            forall|disc: &Disc, x: i32, y: i32| inside.requires((disc, x, y)),
            forall|command: &DrawCommand, discs: Vec<Disc>, k: int|
                #[trigger] trace.ensures((command,), discs) && 0 <= k < discs@.len() ==> (
                #[trigger] discs@[k]).right < i32::MAX && discs@[k].bottom < i32::MAX,
            forall|command: &DrawCommand, top: i32| #[trigger]
                lift.ensures((command,), top) ==> top + 9 <= i32::MAX,
            forall|k: int| 0 <= k < commands@.len() ==> text_fits(#[trigger] commands@[k]),
            surface.sound(),
            surface.same_shape(start),
            commands_drawn(
                *edges,
                *trace,
                *inside,
                *lift,
                commands@.take(i as int),
                start,
                *surface,
            ),
        decreases commands.len() - i,
    {
        let command = &commands[i];
        assert(text_fits(commands@[i as int]));
        let ghost between = *surface;
        match command {
            DrawCommand::Rectangle { argb, filled, .. } => {
                let edge = edges(command);
                draw_packed_rectangle(
                    surface,
                    edge.left,
                    edge.top,
                    edge.right,
                    edge.bottom,
                    *argb,
                    *filled,
                );
            },
            DrawCommand::Circle { argb, .. } => {
                let discs = trace(command);
                draw_discs(surface, &discs, *argb, inside);
            },
            DrawCommand::Line { argb, .. } => {
                let discs = trace(command);
                draw_discs(surface, &discs, *argb, inside);
            },
            DrawCommand::Text { x, y, text, argb } => {
                draw_packed_text(
                    surface,
                    x.floor_to_i32(),
                    y.floor_to_i32(),
                    text.as_str(),
                    *argb,
                );
            },
            DrawCommand::TextCentered { x, text, argb, .. } => {
                let top: i32 = lift(command);
                draw_packed_text(surface, x.floor_to_i32(), top, text.as_str(), *argb);
            },
            DrawCommand::NoOp => {},
        }
        proof {
            assert(command_drawn(*edges, *trace, *inside, *lift, *command, between, *surface));
            let next = commands@.take(i + 1);
            assert(next.drop_last() =~= commands@.take(i as int));
            assert(next.last() == *command);
        }
        i = i + 1;
    }
    assert(commands@.take(i as int) =~= commands@);
}

/// A colour is written to the pixels of a mask and to nothing else: of a pixel in the mask
/// the layout's bytes become the components of the colour, a byte that the layout has no
/// component for stays, and so do all bytes of the other pixels.
pub proof fn law_only_the_masks_pixels_change(
    surface: PackedSurface,
    argb: u32,
    mask: spec_fn(int, int) -> bool,
    x: int,
    y: int,
    c: int,
)
    requires
        surface.sound(),
        0 <= x < surface.width,
        0 <= y < surface.height,
        0 <= c < 4,
    ensures
        ({
            let at = y * surface.stride + 4 * x + c;
            let after = surface.shaded(argb, mask);
            &&& 0 <= at < surface.data@.len()
            &&& after.len() == surface.data@.len()
            &&& !mask(x, y) ==> after[at] == surface.data@[at]
            &&& mask(x, y) && c == surface.layout.blue ==> after[at] == argb as int % 0x100
            &&& mask(x, y) && c == surface.layout.green ==> after[at] == argb as int / 0x100 % 0x100
            &&& mask(x, y) && c == surface.layout.red ==> after[at] == argb as int / 0x1_0000
                % 0x100
            &&& mask(x, y) && surface.layout.alpha == Some(c as usize) ==> after[at] == argb as int
                / 0x100_0000
            &&& c != surface.layout.blue && c != surface.layout.green && c != surface.layout.red
                && surface.layout.alpha != Some(c as usize) ==> after[at] == surface.data@[at]
        }),
{
    let at = y * surface.stride + 4 * x + c;
    let w = surface.stride as int;
    assert(0 <= y * w) by (nonlinear_arith)
        requires
            0 <= y,
            0 <= w,
    ;
    lemma_pixel_bytes(surface, x, y, at);
    assert(surface.lit(at, mask) == mask(x, y));
}

/// The bytes of a row behind its pixels are padding, which is never written to.
pub proof fn law_padding_is_left_alone(
    surface: PackedSurface,
    argb: u32,
    mask: spec_fn(int, int) -> bool,
    y: int,
    k: int,
)
    requires
        surface.sound(),
        0 <= y,
        4 * surface.width <= k < surface.stride,
        y * surface.stride + k < surface.data@.len(),
    ensures
        surface.shaded(argb, mask)[y * surface.stride + k] == surface.data@[y * surface.stride + k],
{
    let w = surface.stride as int;
    let at = y * w + k;
    assert(at == w * y + k) by (nonlinear_arith)
        requires
            at == y * w + k,
    ;
    assert(0 <= y * w) by (nonlinear_arith)
        requires
            0 <= y,
            0 <= w,
    ;
    vstd::arithmetic::div_mod::lemma_fundamental_div_mod_converse(at, w, y, k);
}

/// A filled rectangle takes every pixel between its edges, an outlined one those at an edge.
pub proof fn law_rectangles_take_their_pixels(
    left: int,
    top: int,
    right: int,
    bottom: int,
    x: int,
    y: int,
)
    ensures
        box_mask(left, top, right, bottom, true)(x, y) <==> left <= x < right && top <= y < bottom,
        box_mask(left, top, right, bottom, false)(x, y) <==> left <= x < right && top <= y < bottom
            && !(left < x < right - 1 && top < y < bottom - 1),
{
}

/// A text of `count` characters takes for each of them the outline of a box of six by ten
/// pixels, the boxes side by side with two pixels between them.
pub proof fn law_characters_are_boxes(pen_x: int, pen_y: int, count: int, x: int, y: int)
    requires
        0 <= count,
    ensures
        text_mask(pen_x, pen_y, count)(x, y) <==> exists|i: int|
            0 <= i < count && #[trigger] box_mask(
                pen_x + 8 * i,
                pen_y,
                pen_x + 8 * i + 6,
                pen_y + 10,
                false,
            )(x, y),
{
    let i = (x - pen_x) / 8;
    if text_mask(pen_x, pen_y, count)(x, y) {
        assert(box_mask(pen_x + 8 * i, pen_y, pen_x + 8 * i + 6, pen_y + 10, false)(x, y));
    }
    if exists|i: int|
        0 <= i < count && #[trigger] box_mask(
            pen_x + 8 * i,
            pen_y,
            pen_x + 8 * i + 6,
            pen_y + 10,
            false,
        )(x, y) {
        let k = choose|i: int|
            0 <= i < count && #[trigger] box_mask(
                pen_x + 8 * i,
                pen_y,
                pen_x + 8 * i + 6,
                pen_y + 10,
                false,
            )(x, y);
        assert((x - pen_x) % 8 == x - pen_x - 8 * k);
    }
}

/// The letters of a format stand for the bytes of a pixel in their order; an `x` is a byte
/// without meaning.
pub proof fn law_layouts_follow_the_letters(format: VideoFormat)
    ensures
        layout_of(format) matches Some(layout) ==> layout.sound(),
        layout_of(format) is None <==> format is Ayuv || format is Other,
        format is Rgba || format is Rgbx ==> layout_of(format)->0.red == 0 && layout_of(
            format,
        )->0.green == 1 && layout_of(format)->0.blue == 2,
        format is Bgra || format is Bgrx ==> layout_of(format)->0.blue == 0 && layout_of(
            format,
        )->0.green == 1 && layout_of(format)->0.red == 2,
        format is Argb || format is Xrgb ==> layout_of(format)->0.red == 1 && layout_of(
            format,
        )->0.green == 2 && layout_of(format)->0.blue == 3,
        format is Abgr || format is Xbgr ==> layout_of(format)->0.blue == 1 && layout_of(
            format,
        )->0.green == 2 && layout_of(format)->0.red == 3,
        format is Rgba || format is Bgra ==> layout_of(format)->0.alpha == Some(3usize),
        format is Argb || format is Abgr ==> layout_of(format)->0.alpha == Some(0usize),
        format is Rgbx || format is Bgrx || format is Xrgb || format is Xbgr ==> layout_of(
            format,
        )->0.alpha is None,
        canvas_of(format) is Some ==> layout_of(format) is Some,
        canvas_of(format) is Some <==> format is Rgba || format is Rgbx || format is Bgra
            || format is Bgrx,
{
}

/// Commands are drawn one over the other: drawing two lists in turn is drawing the one
/// behind the other.
pub proof fn law_later_commands_are_drawn_over_earlier<
    E: Fn(&DrawCommand) -> PixelBox,
    T: Fn(&DrawCommand) -> Vec<Disc>,
    I: Fn(&Disc, i32, i32) -> bool,
    L: Fn(&DrawCommand) -> i32,
>(
    edges: E,
    trace: T,
    inside: I,
    lift: L,
    first: Seq<DrawCommand>,
    second: Seq<DrawCommand>,
    before: PackedSurface,
    between: PackedSurface,
    after: PackedSurface,
)
    requires
        commands_drawn(edges, trace, inside, lift, first, before, between),
        commands_drawn(edges, trace, inside, lift, second, between, after),
        second.len() > 0,
    ensures
        commands_drawn(edges, trace, inside, lift, first + second, before, after),
    decreases second.len(),
{
    let all = first + second;
    let rest = second.drop_last();
    assert(all.drop_last() =~= first + rest);
    assert(all.last() == second.last());
    let middle = choose|middle: PackedSurface|
        commands_drawn(edges, trace, inside, lift, rest, between, middle)
            && #[trigger] command_drawn(edges, trace, inside, lift, second.last(), middle, after);
    if rest.len() > 0 {
        law_later_commands_are_drawn_over_earlier(
            edges,
            trace,
            inside,
            lift,
            first,
            rest,
            before,
            between,
            middle,
        );
        assert(command_drawn(edges, trace, inside, lift, all.last(), middle, after));
    } else {
        assert(first + rest =~= first);
        lemma_drawn_on_the_same(
            edges,
            trace,
            inside,
            lift,
            second.last(),
            middle,
            between,
            after,
        );
        assert(command_drawn(edges, trace, inside, lift, all.last(), between, after));
    }
}

/// What is drawn depends on the bytes and the shape of the frame alone.
proof fn lemma_drawn_on_the_same<
    E: Fn(&DrawCommand) -> PixelBox,
    T: Fn(&DrawCommand) -> Vec<Disc>,
    I: Fn(&Disc, i32, i32) -> bool,
    L: Fn(&DrawCommand) -> i32,
>(
    edges: E,
    trace: T,
    inside: I,
    lift: L,
    command: DrawCommand,
    one: PackedSurface,
    other: PackedSurface,
    after: PackedSurface,
)
    requires
        one.same_shape(other),
        one.data@ == other.data@,
        command_drawn(edges, trace, inside, lift, command, one, after),
    ensures
        command_drawn(edges, trace, inside, lift, command, other, after),
{
    assert forall|argb: u32, mask: spec_fn(int, int) -> bool| #[trigger]
        one.shaded(argb, mask) == other.shaded(argb, mask) by {
        lemma_shaded_on_the_same(one, other, argb, mask);
    }
    assert forall|discs: Seq<Disc>, argb: u32|
        discs_drawn(inside, discs, argb, one, after) implies #[trigger] discs_drawn(
        inside,
        discs,
        argb,
        other,
        after,
    ) by {
        lemma_discs_on_the_same(inside, discs, argb, one, other, after);
    }
    match command {
        DrawCommand::Circle { argb, .. } => {
            let discs = choose|discs: Vec<Disc>|
                #[trigger] trace.ensures((&command,), discs) && discs_drawn(
                    inside,
                    discs@,
                    argb,
                    one,
                    after,
                );
            assert(trace.ensures((&command,), discs));
            assert(discs_drawn(inside, discs@, argb, other, after));
        },
        DrawCommand::Line { argb, .. } => {
            let discs = choose|discs: Vec<Disc>|
                #[trigger] trace.ensures((&command,), discs) && discs_drawn(
                    inside,
                    discs@,
                    argb,
                    one,
                    after,
                );
            assert(trace.ensures((&command,), discs));
            assert(discs_drawn(inside, discs@, argb, other, after));
        },
        _ => {},
    }
}

proof fn lemma_shaded_on_the_same(
    one: PackedSurface,
    other: PackedSurface,
    argb: u32,
    mask: spec_fn(int, int) -> bool,
)
    requires
        one.same_shape(other),
        one.data@ == other.data@,
    ensures
        one.shaded(argb, mask) == other.shaded(argb, mask),
{
    assert forall|k: int| 0 <= k < one.data@.len() implies #[trigger] one.shaded(argb, mask)[k]
        == other.shaded(argb, mask)[k] by {
        assert(one.lit(k, mask) == other.lit(k, mask));
    }
    assert(one.shaded(argb, mask) =~= other.shaded(argb, mask));
}

proof fn lemma_discs_on_the_same<I: Fn(&Disc, i32, i32) -> bool>(
    inside: I,
    discs: Seq<Disc>,
    argb: u32,
    one: PackedSurface,
    other: PackedSurface,
    after: PackedSurface,
)
    requires
        one.same_shape(other),
        one.data@ == other.data@,
        discs_drawn(inside, discs, argb, one, after),
    ensures
        discs_drawn(inside, discs, argb, other, after),
    decreases discs.len(),
{
    if discs.len() > 0 {
        let between = choose|between: PackedSurface|
            discs_drawn(inside, discs.drop_last(), argb, one, between) && #[trigger] disc_drawn(
                inside,
                discs.last(),
                argb,
                between,
                after,
            );
        lemma_discs_on_the_same(inside, discs.drop_last(), argb, one, other, between);
        assert(disc_drawn(inside, discs.last(), argb, between, after));
    }
}

/// A text is drawn to the right of and below the pixel that holds its position, as the boxes
/// of its first 64 characters; nothing outside of them changes.
pub proof fn law_texts_start_at_their_position<
    E: Fn(&DrawCommand) -> PixelBox,
    T: Fn(&DrawCommand) -> Vec<Disc>,
    I: Fn(&Disc, i32, i32) -> bool,
    L: Fn(&DrawCommand) -> i32,
>(
    edges: E,
    trace: T,
    inside: I,
    lift: L,
    x: Scalar,
    y: Scalar,
    text: String,
    argb: u32,
    before: PackedSurface,
    after: PackedSurface,
    px: int,
    py: int,
    c: int,
)
    requires
        command_drawn(
            edges,
            trace,
            inside,
            lift,
            DrawCommand::Text { x, y, text, argb },
            before,
            after,
        ),
        before.sound(),
        0 <= px < before.width,
        0 <= py < before.height,
        0 <= c < 4,
    ensures
        ({
            let at = py * before.stride + 4 * px + c;
            let left = x.as_i32(x.floor());
            let top = y.as_i32(y.floor());
            let characters = if text@.len() < 64 {
                text@.len() as int
            } else {
                64
            };
            let drawn = exists|i: int|
                0 <= i < characters && #[trigger] box_mask(
                    left + 8 * i,
                    top,
                    left + 8 * i + 6,
                    top + 10,
                    false,
                )(px, py);
            &&& !drawn ==> after.data@[at] == before.data@[at]
            &&& drawn && c == before.layout.red ==> after.data@[at] == argb as int / 0x1_0000
                % 0x100
        }),
{
    let left = x.as_i32(x.floor());
    let top = y.as_i32(y.floor());
    let characters = crate::geometry::int_min(text@.len() as int, 64);
    law_characters_are_boxes(left, top, characters, px, py);
    law_only_the_masks_pixels_change(
        before,
        argb,
        text_mask(left, top, characters),
        px,
        py,
        c,
    );
}

/// A rectangle is drawn between the edges that `edges` gives for it, in its colour: all of it
/// where it is filled, else its outline, of the part that lies in the frame.
pub proof fn law_rectangles_are_drawn_between_their_edges<
    E: Fn(&DrawCommand) -> PixelBox,
    T: Fn(&DrawCommand) -> Vec<Disc>,
    I: Fn(&Disc, i32, i32) -> bool,
    L: Fn(&DrawCommand) -> i32,
>(
    edges: E,
    trace: T,
    inside: I,
    lift: L,
    command: DrawCommand,
    edge: PixelBox,
    before: PackedSurface,
    after: PackedSurface,
    px: int,
    py: int,
    c: int,
)
    requires
        command is Rectangle,
        command_drawn(edges, trace, inside, lift, command, before, after),
        forall|found: PixelBox| #[trigger] edges.ensures((&command,), found) ==> found == edge,
        before.sound(),
        0 <= px < before.width,
        0 <= py < before.height,
        0 <= c < 4,
    ensures
        ({
            let at = py * before.stride + 4 * px + c;
            let right = if edge.right < before.width {
                edge.right
            } else {
                before.width
            };
            let bottom = if edge.bottom < before.height {
                edge.bottom
            } else {
                before.height
            };
            let drawn = edge.left <= px < right && edge.top <= py < bottom && (
            command->Rectangle_filled || px == edge.left || px == right - 1 || py == edge.top || py
                == bottom - 1);
            &&& !drawn ==> after.data@[at] == before.data@[at]
            &&& drawn && c == before.layout.red ==> after.data@[at] == command->Rectangle_argb as int
                / 0x1_0000 % 0x100
            &&& drawn && c == before.layout.blue ==> after.data@[at]
                == command->Rectangle_argb as int % 0x100
        }),
{
    let argb = command->Rectangle_argb;
    let mask = box_mask(
        edge.left as int,
        edge.top as int,
        crate::geometry::int_min(edge.right as int, before.width as int),
        crate::geometry::int_min(edge.bottom as int, before.height as int),
        command->Rectangle_filled,
    );
    let found = choose|found: PixelBox|
        #[trigger] edges.ensures((&command,), found) && after.data@ == before.shaded(
            argb,
            box_mask(
                found.left as int,
                found.top as int,
                crate::geometry::int_min(found.right as int, before.width as int),
                crate::geometry::int_min(found.bottom as int, before.height as int),
                command->Rectangle_filled,
            ),
        );
    assert(found == edge);
    law_only_the_masks_pixels_change(before, argb, mask, px, py, c);
}

/// A circle or a line changes no pixel that lies in none of the discs that `trace` gives for
/// it.
pub proof fn law_discs_stay_within_their_extent<I: Fn(&Disc, i32, i32) -> bool>(
    inside: I,
    discs: Seq<Disc>,
    argb: u32,
    before: PackedSurface,
    after: PackedSurface,
    px: int,
    py: int,
    c: int,
)
    requires
        discs_drawn(inside, discs, argb, before, after),
        before.sound(),
        0 <= px < before.width,
        0 <= py < before.height,
        0 <= c < 4,
        forall|i: int|
            0 <= i < discs.len() ==> !((#[trigger] discs[i]).left <= px <= discs[i].right
                && discs[i].top <= py <= discs[i].bottom),
    ensures
        after.same_shape(before),
        after.data@[py * before.stride + 4 * px + c] == before.data@[py * before.stride + 4 * px
            + c],
    decreases discs.len(),
{
    if discs.len() > 0 {
        let rest = discs.drop_last();
        let between = choose|between: PackedSurface|
            discs_drawn(inside, rest, argb, before, between) && #[trigger] disc_drawn(
                inside,
                discs.last(),
                argb,
                between,
                after,
            );
        assert(forall|i: int| 0 <= i < rest.len() ==> rest[i] == discs[i]);
        law_discs_stay_within_their_extent(inside, rest, argb, before, between, px, py, c);
        let mask = choose|mask: spec_fn(int, int) -> bool|
            after.data@ == #[trigger] between.shaded(argb, mask) && is_disc_mask(
                inside,
                discs.last(),
                mask,
            );
        assert(discs.last() == discs[discs.len() - 1]);
        assert(!mask(px, py));
        law_only_the_masks_pixels_change(between, argb, mask, px, py, c);
    }
}

/// The pixels of a disc that `inside` names get its colour.
pub proof fn law_discs_are_filled_where_inside<I: Fn(&Disc, i32, i32) -> bool>(
    inside: I,
    disc: Disc,
    argb: u32,
    before: PackedSurface,
    after: PackedSurface,
    px: i32,
    py: i32,
    hit: bool,
    c: int,
)
    requires
        disc_drawn(inside, disc, argb, before, after),
        before.sound(),
        0 <= px < before.width,
        0 <= py < before.height,
        0 <= c < 4,
        disc.left <= px <= disc.right,
        disc.top <= py <= disc.bottom,
        forall|found: bool| #[trigger] inside.ensures((&disc, px, py), found) ==> found == hit,
    ensures
        ({
            let at = py * before.stride + 4 * px + c;
            &&& !hit ==> after.data@[at] == before.data@[at]
            &&& hit && c == before.layout.green ==> after.data@[at] == argb as int / 0x100 % 0x100
        }),
{
    let mask = choose|mask: spec_fn(int, int) -> bool|
        after.data@ == #[trigger] before.shaded(argb, mask) && is_disc_mask(inside, disc, mask);
    assert(inside.ensures((&disc, px, py), mask(px as int, py as int)));
    law_only_the_masks_pixels_change(before, argb, mask, px as int, py as int, c);
}

/// The main renderer takes RGBA, RGBx and BGRA frames as what they are, and BGRx frames as
/// BGRA.
pub proof fn law_canvases_follow_the_letters(format: VideoFormat)
    ensures
        format is Rgba ==> canvas_of(format) == Some(CanvasFormat::Rgba8888),
        format is Rgbx ==> canvas_of(format) == Some(CanvasFormat::Rgb888x),
        format is Bgra || format is Bgrx ==> canvas_of(format) == Some(CanvasFormat::Bgra8888),
{
}

/// A colour is painted by its bytes: each channel of a pixel takes the colour's byte for it,
/// and a byte that is no channel stays.
pub proof fn law_channels_take_their_bytes(
    layout: PackedPixelLayout,
    argb: u32,
    c: int,
    before: u8,
)
    requires
        layout.sound(),
    ensures
        c == layout.blue ==> painted(layout, argb, c, before) == argb as int % 0x100,
        c == layout.green ==> painted(layout, argb, c, before) == argb as int / 0x100 % 0x100,
        c == layout.red ==> painted(layout, argb, c, before) == argb as int / 0x1_0000 % 0x100,
        layout.alpha matches Some(alpha) ==> (c == alpha ==> painted(layout, argb, c, before)
            == argb as int / 0x100_0000),
        c != layout.red && c != layout.green && c != layout.blue && (layout.alpha is None || c
            != layout.alpha->0) ==> painted(layout, argb, c, before) == before,
{
}

/// A centered text is drawn as any other, in its colour, but with the upper end that `lift`
/// gives for it; a step that draws nothing changes nothing.
pub proof fn law_centered_texts_are_lifted<
    E: Fn(&DrawCommand) -> PixelBox,
    T: Fn(&DrawCommand) -> Vec<Disc>,
    I: Fn(&Disc, i32, i32) -> bool,
    L: Fn(&DrawCommand) -> i32,
>(
    edges: E,
    trace: T,
    inside: I,
    lift: L,
    command: DrawCommand,
    top: i32,
    before: PackedSurface,
    after: PackedSurface,
    px: int,
    py: int,
    c: int,
)
    requires
        command is TextCentered || command is NoOp,
        command_drawn(edges, trace, inside, lift, command, before, after),
        forall|found: i32| #[trigger] lift.ensures((&command,), found) ==> found == top,
        before.sound(),
        0 <= px < before.width,
        0 <= py < before.height,
        0 <= c < 4,
    ensures
        command is NoOp ==> after.data@ == before.data@,
        command matches DrawCommand::TextCentered { x, text, argb, .. } ==> {
            let at = py * before.stride + 4 * px + c;
            let left = x.as_i32(x.floor());
            let characters = if text@.len() < 64 {
                text@.len() as int
            } else {
                64
            };
            let drawn = exists|i: int|
                0 <= i < characters && #[trigger] box_mask(
                    left + 8 * i,
                    top as int,
                    left + 8 * i + 6,
                    top + 10,
                    false,
                )(px, py);
            &&& !drawn ==> after.data@[at] == before.data@[at]
            &&& drawn && c == before.layout.red ==> after.data@[at] == argb as int / 0x1_0000
                % 0x100
        },
{
    if let DrawCommand::TextCentered { x, y, text, argb } = command {
        let left = x.as_i32(x.floor());
        let characters = crate::geometry::int_min(text@.len() as int, 64);
        let found = choose|found: i32|
            #[trigger] lift.ensures((&command,), found) && after.data@ == before.shaded(
                argb,
                label_mask(pen(x), found as int, text@),
            );
        assert(found == top);
        law_characters_are_boxes(left, top as int, characters, px, py);
        law_only_the_masks_pixels_change(
            before,
            argb,
            text_mask(left, top as int, characters),
            px,
            py,
            c,
        );
    }
}

} // verus!
