use vstd::prelude::*;
use crate::bitmap::BitMap;
use crate::pix_type::{PixExt, RGB};

verus! {

/// Bit `i` of `bytes` read most-significant bit first.
pub open spec fn bit_at(bytes: Seq<u8>, i: int) -> bool {
    (bytes[i / 8] >> ((7 - i % 8) as u8)) & 1u8 == 1u8
}

/// A monochrome bitmap font: one `width` x `height` glyph per character
/// code from 0 up, each packed into `width * height / 8` bytes, row by
/// row, most-significant bit first.
pub struct AsciiFont {
    data: Vec<u8>,
    width: usize,
    height: usize,
}

impl AsciiFont {
    /// The packed table.
    pub closed spec fn bytes(&self) -> Seq<u8> {
        self.data@
    }

    pub closed spec fn spec_width(&self) -> int {
        self.width as int
    }

    pub closed spec fn spec_height(&self) -> int {
        self.height as int
    }

    /// Each glyph fills a whole number of bytes.
    pub open spec fn wf(&self) -> bool {
        &&& self.spec_width() * self.spec_height() <= usize::MAX
        &&& (self.spec_width() * self.spec_height()) % 8 == 0
    }

    /// Bytes per glyph.
    pub open spec fn glyph_len(&self) -> int {
        (self.spec_width() * self.spec_height()) / 8
    }

    /// Where the glyph of `c` starts in the table.
    pub open spec fn glyph_offset(&self, c: char) -> int {
        (c as u32) as int * self.glyph_len()
    }

    /// Whether the table holds the whole glyph of `c`.
    pub open spec fn has_glyph(&self, c: char) -> bool {
        self.glyph_offset(c) + self.glyph_len() <= self.bytes().len()
    }

    /// Bit `k` of the glyph of `c`.
    pub open spec fn glyph_bit(&self, c: char, k: int) -> bool {
        bit_at(self.bytes().subrange(self.glyph_offset(c), self.glyph_offset(c) + self.glyph_len()), k)
    }

    /// The glyph of `c` as pixels: `color` where a bit is set, black where
    /// it is clear.
    pub open spec fn glyph_pixels<T: PixExt>(&self, c: char, color: RGB) -> Seq<T> {
        Seq::new(
            (self.spec_width() * self.spec_height()) as nat,
            |k: int|
                if self.glyph_bit(c, k) {
                    T::spec_rgb(color)
                } else {
                    T::spec_rgb(RGB(0, 0, 0))
                },
        )
    }

    /// A font over `data` with glyphs of `width` x `height`; `None` unless
    /// a glyph fills a whole number of bytes.
    pub fn new(data: Vec<u8>, width: usize, height: usize) -> (r: Option<AsciiFont>)
        ensures
            r is Some <==> (width * height <= usize::MAX && (width * height) % 8 == 0),
            r matches Some(f) ==> (f.wf() && f.bytes() == data@ && f.spec_width() == width
                && f.spec_height() == height),
    {
        assert(usize::MAX <= 0xffff_ffff_ffff_ffff);
        assert(width as int * height as int <= u128::MAX) by (nonlinear_arith)
            requires
                width <= 0xffff_ffff_ffff_ffff,
                height <= 0xffff_ffff_ffff_ffff,
        ;
        let bits: u128 = width as u128 * height as u128;
        if bits > usize::MAX as u128 || bits % 8 != 0 {
            None
        } else {
            Some(AsciiFont { data, width, height })
        }
    }

    fn char_bytes(&self) -> (r: usize)
        requires
            self.wf(),
        ensures
            r == self.glyph_len(),
    {
        self.width * self.height / 8
    }

    /// The pixels of the glyph of `index`.
    fn map_to_data<T: PixExt>(&self, index: char, rgb: RGB) -> (r: Vec<T>)
        requires
            self.wf(),
            self.has_glyph(index),
        ensures
            r@ == self.glyph_pixels::<T>(index, rgb),
    {
        let cb = self.char_bytes();
        let len = self.data.len();
        assert((index as u32) as int * cb <= len);
        let offset = index as u32 as usize * cb;
        let n = cb * 8;
        let fg = T::rgb(rgb);
        let bg = T::rgb(RGB::black());
        let ghost glyph = self.bytes().subrange(offset as int, offset + cb);
        let mut data: Vec<T> = Vec::new();
        let mut k: usize = 0;
        while k < n
            invariant
                self.wf(),
                self.has_glyph(index),
                cb == self.glyph_len(),
                offset == self.glyph_offset(index),
                n == self.spec_width() * self.spec_height(),
                glyph == self.bytes().subrange(offset as int, offset + cb),
                fg == T::spec_rgb(rgb),
                bg == T::spec_rgb(RGB(0, 0, 0)),
                k <= n,
                n == cb * 8,
                offset + cb <= len,
                len == self.bytes().len(),
                data@.len() == k,
                forall|j: int| 0 <= j < k ==> #[trigger] data@[j] == self.glyph_pixels::<T>(index, rgb)[j],
            decreases n - k,
        {
            let byte = self.data[offset + k / 8];
            assert(byte == glyph[(k / 8) as int]);
            let shift: u8 = (7 - k % 8) as u8;
            if (byte >> shift) & 1u8 == 1u8 {
                data.push(fg);
            } else {
                data.push(bg);
            }
            k = k + 1;
        }
        assert(data@ =~= self.glyph_pixels::<T>(index, rgb));
        data
    }

    /// The glyph of `index` in pixels of format `T`, or `None` where the
    /// table ends before the glyph does.
    pub fn char_bitmap<T: PixExt>(&self, index: char, rgb: RGB) -> (r: Option<CharBitMap<T>>)
        requires
            self.wf(),
        ensures
            r is Some <==> self.has_glyph(index),
            r matches Some(g) ==> (g.wf() && g.spec_width() == self.spec_width()
                && g.spec_height() == self.spec_height() && g.pixels() == self.glyph_pixels::<T>(
                index,
                rgb,
            )),
    {
        let cb = self.char_bytes();
        assert(usize::MAX <= 0xffff_ffff_ffff_ffff);
        assert((index as u32) as int * cb as int <= u128::MAX - 0x1_0000_0000_0000_0000) by (nonlinear_arith)
            requires
                (index as u32) as int <= 0xffff_ffff,
                cb as int <= 0xffff_ffff_ffff_ffff,
        ;
        let end: u128 = index as u32 as u128 * cb as u128 + cb as u128;
        if end > self.data.len() as u128 {
            return None;
        }
        let data = self.map_to_data(index, rgb);
        Some(CharBitMap { data, width: self.width, height: self.height })
    }
}

/// The pixels of one glyph, `width * height` of them, row by row.
pub struct CharBitMap<T> {
    data: Vec<T>,
    width: usize,
    height: usize,
}

impl<T: PixExt> CharBitMap<T> {
    pub closed spec fn pixels(&self) -> Seq<T> {
        self.data@
    }

    pub closed spec fn spec_width(&self) -> int {
        self.width as int
    }

    pub closed spec fn spec_height(&self) -> int {
        self.height as int
    }

    pub open spec fn wf(&self) -> bool {
        self.pixels().len() == self.spec_width() * self.spec_height()
    }

    /// The glyph as a bitmap view, ready to blit.
    pub fn bitmap(self) -> (r: BitMap<T>)
        requires
            self.wf(),
        ensures
            r.wf(),
            r.pixels() == self.pixels(),
            r.spec_width() == self.spec_width(),
            r.spec_height() == self.spec_height(),
    {
        BitMap::from_parts(self.data, self.width, self.height)
    }
}

} // verus!
