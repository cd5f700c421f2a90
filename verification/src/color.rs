//! Colors as red, green and blue components.

use vstd::prelude::*;

verus! {

/// RGB color representation (0-255 range for each component)
#[derive(Debug, Clone, Copy, PartialEq, Eq, Structural)]
pub struct RgbColor {
    pub r: u8,
    pub g: u8,
    pub b: u8,
}

impl RgbColor {
    /// The opaque color as one number: alpha, red, green and blue, from the highest byte to
    /// the lowest.
    pub open spec fn argb(self) -> int {
        0xFF00_0000 + self.r * 0x1_0000 + self.g * 0x100 + self.b
    }

    /// Create RGB color from components
    pub fn new(r: u8, g: u8, b: u8) -> (c: Self)
        ensures
            c == (RgbColor { r, g, b }),
    {
        RgbColor { r, g, b }
    }

    /// Convert to ARGB u32 with full opacity
    pub fn to_argb(self) -> (argb: u32)
        ensures
            argb == self.argb(),
    {
        let r: u32 = self.r as u32;
        let g: u32 = self.g as u32;
        let b: u32 = self.b as u32;
        assert(0xFFu32 << 24 | r << 16 | g << 8 | b == 0xFF00_0000u32 + r * 0x1_0000 + g * 0x100
            + b) by (bit_vector)
            requires
                r < 256,
                g < 256,
                b < 256,
        ;
        (0xFFu32 << 24) | (r << 16) | (g << 8) | b
    }
}

/// The number gives back the components, and no two colors share one.
pub proof fn law_argb_keeps_components(color: RgbColor)
    ensures
        color.argb() / 0x100_0000 == 0xFF,
        color.argb() / 0x1_0000 % 0x100 == color.r,
        color.argb() / 0x100 % 0x100 == color.g,
        color.argb() % 0x100 == color.b,
{
}

} // verus!
