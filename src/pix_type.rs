use vstd::prelude::*;

verus! {

/// A color with three 8-bit channels: red, green, blue.
#[derive(Clone, Copy, Debug, PartialEq, Eq, Structural)]
pub struct RGB(pub u8, pub u8, pub u8);

impl RGB {
    pub fn new(red: u8, green: u8, blue: u8) -> (r: Self)
        ensures
            r == RGB(red, green, blue),
    {
        RGB(red, green, blue)
    }
}

impl RGB {
    /// All channels zero.
    pub fn black() -> (r: Self)
        ensures
            r == RGB(0, 0, 0),
    {
        RGB(0, 0, 0)
    }

    /// All channels at their maximum.
    pub fn white() -> (r: Self)
        ensures
            r == RGB(255, 255, 255),
    {
        RGB(255, 255, 255)
    }

    pub fn red() -> (r: Self)
        ensures
            r == RGB(255, 0, 0),
    {
        RGB(255, 0, 0)
    }

    pub fn green() -> (r: Self)
        ensures
            r == RGB(0, 255, 0),
    {
        RGB(0, 255, 0)
    }

    pub fn blue() -> (r: Self)
        ensures
            r == RGB(0, 0, 255),
    {
        RGB(0, 0, 255)
    }
}

/// A pixel format: how a color is packed into a native pixel value.
pub trait PixExt: Sized + Copy {
    /// The native integer handed to a display sink.
    type Target;

    /// The pixel that `rgb` packs a color into.
    spec fn spec_rgb(c: RGB) -> Self;

    /// The native value that `blend` hands out.
    spec fn spec_blend(self) -> Self::Target;

    /// The format's default (all-zero) pixel.
    spec fn spec_zero() -> Self;

    fn blend(self) -> (r: Self::Target)
        ensures
            r == self.spec_blend(),
    ;

    fn rgb(c: RGB) -> (r: Self)
        ensures
            r == Self::spec_rgb(c),
    ;

    fn zero() -> (r: Self)
        ensures
            r == Self::spec_zero(),
    ;
}

/// 16-bit packed pixel: 5 bits red, 6 bits green, 5 bits blue.
#[derive(Clone, Copy, Debug, Default, PartialEq, Eq, Structural)]
pub struct RGB565(pub u16);

/// The 16-bit packing: each channel truncated to its top bits.
pub open spec fn rgb565_of(c: RGB) -> int {
    (c.0 as int / 8) * 2048 + (c.1 as int / 4) * 32 + c.2 as int / 8
}

impl PixExt for RGB565 {
    type Target = u16;

    open spec fn spec_rgb(c: RGB) -> Self {
        RGB565(rgb565_of(c) as u16)
    }

    open spec fn spec_blend(self) -> u16 {
        self.0
    }

    open spec fn spec_zero() -> Self {
        RGB565(0)
    }

    fn blend(self) -> (r: u16) {
        self.0
    }

    fn rgb(c: RGB) -> (r: Self) {
        let (red, green, blue) = (c.0 as u16, c.1 as u16, c.2 as u16);
        let v: u16 = ((red & 0b11111000) << 8) | ((green & 0b11111100) << 3) | (blue >> 3);
        assert(v == (red / 8) * 2048 + (green / 4) * 32 + blue / 8) by (bit_vector)
            requires
                red < 256,
                green < 256,
                blue < 256,
                v == ((red & 0b11111000) << 8) | ((green & 0b11111100) << 3) | (blue >> 3),
        ;
        RGB565(v)
    }

    fn zero() -> (r: Self) {
        RGB565(0)
    }
}

/// 32-bit pixel: opaque alpha, then 8 bits each of red, green, blue.
#[derive(Clone, Copy, Debug, Default, PartialEq, Eq, Structural)]
pub struct ARGB32(pub u32);

/// The 32-bit packing: alpha fixed at 0xff above the three channels.
pub open spec fn argb32_of(c: RGB) -> int {
    0xff00_0000 + c.0 as int * 0x1_0000 + c.1 as int * 0x100 + c.2 as int
}

impl PixExt for ARGB32 {
    type Target = u32;

    open spec fn spec_rgb(c: RGB) -> Self {
        ARGB32(argb32_of(c) as u32)
    }

    open spec fn spec_blend(self) -> u32 {
        self.0
    }

    open spec fn spec_zero() -> Self {
        ARGB32(0)
    }

    fn blend(self) -> (r: u32) {
        self.0
    }

    fn rgb(c: RGB) -> (r: Self) {
        let (red, green, blue) = (c.0 as u32, c.1 as u32, c.2 as u32);
        let v: u32 = (0xffu32 << 24u32) | (red << 16u32) | (green << 8u32) | blue;
        assert(v == 0xff00_0000 + red * 0x1_0000 + green * 0x100 + blue) by (bit_vector)
            requires
                red < 256,
                green < 256,
                blue < 256,
                v == (0xffu32 << 24u32) | (red << 16u32) | (green << 8u32) | blue,
        ;
        ARGB32(v)
    }

    fn zero() -> (r: Self) {
        ARGB32(0)
    }
}

/// The 16-bit format keeps the top five bits of red in the top five bits
/// of the pixel and the top six bits of green in the middle field: pure
/// red sets exactly bits 11..16, pure green exactly bits 5..11, pure blue
/// exactly bits 0..5, and black packs to zero.
pub proof fn lemma_rgb565_fields()
    ensures
        RGB565::spec_rgb(RGB(255, 0, 0)).0 == 0xf800,
        RGB565::spec_rgb(RGB(0, 255, 0)).0 == 0x07e0,
        RGB565::spec_rgb(RGB(0, 0, 255)).0 == 0x001f,
        RGB565::spec_rgb(RGB(0, 0, 0)).0 == 0,
{
}

/// Packing drops only the low bits of each channel: two colors that agree
/// on the top 5/6/5 bits of red/green/blue give the same 16-bit pixel, and
/// two that differ there give different pixels.
pub proof fn lemma_rgb565_truncation(a: RGB, b: RGB)
    ensures
        (RGB565::spec_rgb(a) == RGB565::spec_rgb(b)) <==> (a.0 / 8 == b.0 / 8 && a.1 / 4 == b.1 / 4
            && a.2 / 8 == b.2 / 8),
{
}

} // verus!
