use bitmap_draw::{AsciiFont, BitMap, BitMapError, PixExt, Point, ARGB32, RGB, RGB565};

fn view(width: usize, height: usize) -> BitMap<ARGB32> {
    BitMap::new(vec![ARGB32(0); width * height], width, height).unwrap()
}

fn red() -> ARGB32 {
    ARGB32::rgb(RGB::red())
}

fn painted(bitmap: &BitMap<ARGB32>) -> Vec<(usize, usize)> {
    let mut out = Vec::new();
    for y in 0..bitmap.height() {
        for x in 0..bitmap.width() {
            if bitmap.get(x, y).unwrap() != ARGB32(0) {
                out.push((x, y));
            }
        }
    }
    out
}

#[test]
fn new_accepts_exact_buffer() {
    let b = BitMap::new(vec![RGB565(0); 6], 3, 2).unwrap();
    assert_eq!(b.width(), 3);
    assert_eq!(b.height(), 2);
}

#[test]
fn new_accepts_larger_buffer() {
    assert!(BitMap::new(vec![RGB565(0); 7], 3, 2).is_ok());
}

#[test]
fn new_reports_sizes_in_bytes() {
    let r = BitMap::new(vec![RGB565(0); 5], 3, 2);
    assert_eq!(r.err(), Some(BitMapError::NotEnoughBuffer { buffer: 10, total: 12 }));
    let r = BitMap::new(vec![ARGB32(0); 1], 2, 2);
    assert_eq!(r.err(), Some(BitMapError::NotEnoughBuffer { buffer: 4, total: 16 }));
}

#[test]
fn draw_pix_bounds() {
    let mut b = view(4, 3);
    assert_eq!(b.draw_pix(Point { x: 3, y: 2 }, RGB::red()), Ok(()));
    assert_eq!(b.get(3, 2), Some(red()));
    assert_eq!(b.draw_pix(Point { x: 4, y: 0 }, RGB::red()), Err(BitMapError::OverFlowX { x: 4, width: 4 }));
    assert_eq!(b.draw_pix(Point { x: 0, y: 3 }, RGB::red()), Err(BitMapError::OverFlowY { y: 3, height: 3 }));
    assert_eq!(painted(&b), vec![(3, 2)]);
}

#[test]
fn rgb565_packing() {
    assert_eq!(RGB565::rgb(RGB::red()).blend(), 0xf800);
    assert_eq!(RGB565::rgb(RGB::green()).blend(), 0x07e0);
    assert_eq!(RGB565::rgb(RGB::blue()).blend(), 0x001f);
    assert_eq!(RGB565::rgb(RGB::white()).blend(), 0xffff);
    assert_eq!(RGB565::rgb(RGB::black()).blend(), 0);
    assert_eq!(RGB565::rgb(RGB::new(7, 3, 7)).blend(), 0);
    assert_eq!(RGB565::rgb(RGB::new(0x12, 0x34, 0x56)).blend(), (2 << 11) | (13 << 5) | 10);
    assert_eq!(RGB565::rgb(RGB::new(0x12, 0x34, 0x56)), RGB565::rgb(RGB::new(0x12, 0x34, 0x56)));
}

#[test]
fn argb32_packing() {
    assert_eq!(ARGB32::rgb(RGB::new(0x12, 0x34, 0x56)).blend(), 0xff12_3456);
    assert_eq!(ARGB32::rgb(RGB::black()).blend(), 0xff00_0000);
    assert_eq!(ARGB32::rgb(RGB::white()).blend(), 0xffff_ffff);
    assert_eq!(ARGB32::zero().blend(), 0);
}

#[test]
fn bitblit_inside_copies_source() {
    let mut dst = view(6, 5);
    let src = BitMap::new((1..=6).map(ARGB32).collect::<Vec<_>>(), 3, 2).unwrap();
    assert_eq!(dst.bitblit(Point { x: 2, y: 1 }, &src), Ok(()));
    for sy in 0..2 {
        for sx in 0..3 {
            assert_eq!(dst.get(2 + sx, 1 + sy), src.get(sx, sy));
        }
    }
    assert_eq!(painted(&dst).len(), 6);
}

#[test]
fn bitblit_partly_outside_is_clipped() {
    let mut dst = view(4, 3);
    let src = BitMap::new((1..=9).map(ARGB32).collect::<Vec<_>>(), 3, 3).unwrap();
    assert_eq!(dst.bitblit(Point { x: 2, y: 1 }, &src), Ok(()));
    assert_eq!(painted(&dst), vec![(2, 1), (3, 1), (2, 2), (3, 2)]);
    assert_eq!(dst.get(2, 1), Some(ARGB32(1)));
    assert_eq!(dst.get(3, 2), Some(ARGB32(5)));
    assert_eq!(dst.into_data().len(), 12);
}

#[test]
fn bitblit_origin_outside_fails() {
    let mut dst = view(4, 3);
    let src = view(2, 2);
    assert_eq!(dst.bitblit(Point { x: 4, y: 0 }, &src), Err(BitMapError::OverFlowX { x: 4, width: 4 }));
    assert_eq!(dst.bitblit(Point { x: 0, y: 3 }, &src), Err(BitMapError::OverFlowY { y: 3, height: 3 }));
}

#[test]
fn draw_line_horizontal() {
    let mut b = view(8, 4);
    assert_eq!(b.draw_line((0, 0).into(), (5, 0).into(), RGB::red()), Ok(()));
    assert_eq!(painted(&b), vec![(0, 0), (1, 0), (2, 0), (3, 0), (4, 0)]);
}

#[test]
fn draw_line_horizontal_reversed() {
    let mut b = view(8, 4);
    assert_eq!(b.draw_line((5, 1).into(), (2, 1).into(), RGB::red()), Ok(()));
    assert_eq!(painted(&b), vec![(2, 1), (3, 1), (4, 1)]);
}

#[test]
fn draw_line_vertical() {
    let mut b = view(4, 8);
    assert_eq!(b.draw_line((1, 6).into(), (1, 2).into(), RGB::red()), Ok(()));
    assert_eq!(painted(&b), vec![(1, 2), (1, 3), (1, 4), (1, 5)]);
}

#[test]
fn draw_line_diagonal() {
    let mut b = view(8, 8);
    assert_eq!(b.draw_line((0, 0).into(), (4, 2).into(), RGB::red()), Ok(()));
    assert_eq!(painted(&b), vec![(0, 0), (1, 0), (2, 1), (3, 1)]);
}

#[test]
fn draw_line_steep_upward() {
    let mut b = view(8, 8);
    assert_eq!(b.draw_line((3, 3).into(), (0, 0).into(), RGB::red()), Ok(()));
    assert_eq!(painted(&b), vec![(1, 1), (2, 2), (3, 3)]);
}

#[test]
fn draw_line_clamps_ends() {
    let mut b = view(4, 4);
    assert_eq!(b.draw_line((1, 9).into(), (9, 9).into(), RGB::red()), Ok(()));
    assert_eq!(painted(&b), vec![(1, 3), (2, 3)]);
}

#[test]
fn draw_line_on_empty_view_fails() {
    let mut b = view(0, 3);
    assert_eq!(b.draw_line((0, 0).into(), (1, 1).into(), RGB::red()), Err(BitMapError::OverFlowX { x: 0, width: 0 }));
    let mut b = view(3, 0);
    assert_eq!(b.draw_line((2, 0).into(), (1, 1).into(), RGB::red()), Err(BitMapError::OverFlowY { y: 0, height: 0 }));
}

#[test]
fn fill_rectangle_covers_one_extra_row() {
    let mut b = view(10, 10);
    assert_eq!(b.fill_rectagle((2, 2).into(), 4, 3, RGB::red()), Ok(()));
    let mut expected = Vec::new();
    for y in 2..=5 {
        for x in 2..6 {
            expected.push((x, y));
        }
    }
    assert_eq!(painted(&b), expected);
}

#[test]
fn fill_rectangle_clips_at_edges() {
    let mut b = view(5, 4);
    assert_eq!(b.fill_rectagle((3, 2).into(), 10, 10, RGB::red()), Ok(()));
    assert_eq!(painted(&b), vec![(3, 2), (3, 3)]);
    assert_eq!(b.fill_rectagle((5, 0).into(), 1, 1, RGB::red()), Err(BitMapError::OverFlowX { x: 5, width: 5 }));
}

#[test]
fn draw_rectangle_strokes_edges() {
    let mut b = view(10, 10);
    assert_eq!(b.draw_rectagle((1, 1).into(), 4, 3, RGB::red()), Ok(()));
    let mut expected = vec![(1, 1), (2, 1), (3, 1), (4, 1)];
    expected.extend([(1, 2), (5, 2), (1, 3), (5, 3), (1, 4), (2, 4), (3, 4), (4, 4)]);
    expected.push((5, 1));
    expected.sort_by_key(|&(x, y)| (y, x));
    assert_eq!(painted(&b), expected);
    assert_eq!(b.draw_rectagle((1, 10).into(), 1, 1, RGB::red()), Err(BitMapError::OverFlowY { y: 10, height: 10 }));
}

#[test]
fn clear_zeroes_every_pixel() {
    let mut b = BitMap::new(vec![RGB565(0x1234); 7], 2, 3).unwrap();
    b.clear();
    assert_eq!(b.into_data(), vec![RGB565(0); 7]);
}

#[test]
fn raw_accessors_are_permissive() {
    let mut b = BitMap::new((0..12).map(|v| RGB565(v as u16)).collect::<Vec<_>>(), 3, 3).unwrap();
    assert_eq!(b.get(3, 0), Some(RGB565(3)));
    assert_eq!(b.get(3, 3), None);
    assert_eq!(b.get(4, 0), None);
    b.set(9, 9, RGB565(99));
    b.set(0, 3, RGB565(77));
    assert_eq!(b.get(0, 3), Some(RGB565(77)));
    assert_eq!(b.into_data()[9], RGB565(77));
}

fn font() -> AsciiFont {
    // 8 x 2 glyphs, two bytes each: codes 0, 1, 2
    AsciiFont::new(vec![0x00, 0x00, 0b1010_0000, 0b0000_0001, 0xff, 0x81], 8, 2).unwrap()
}

#[test]
fn font_needs_whole_bytes() {
    assert!(AsciiFont::new(vec![0; 4], 3, 3).is_none());
    assert!(AsciiFont::new(vec![0; 4], 4, 2).is_some());
}

#[test]
fn glyph_matches_bits() {
    let glyph = font().char_bitmap::<ARGB32>('\u{1}', RGB::white()).unwrap();
    let b = glyph.bitmap();
    assert_eq!((b.width(), b.height()), (8, 2));
    let pixels = b.into_data();
    assert_eq!(pixels.len(), 16);
    let white = ARGB32::rgb(RGB::white());
    let black = ARGB32::rgb(RGB::black());
    let bits = [1, 0, 1, 0, 0, 0, 0, 0, 0, 0, 0, 0, 0, 0, 0, 1];
    for k in 0..16 {
        assert_eq!(pixels[k], if bits[k] == 1 { white } else { black });
    }
}

#[test]
fn glyph_past_table_is_absent() {
    assert!(font().char_bitmap::<ARGB32>('\u{3}', RGB::white()).is_none());
    assert!(font().char_bitmap::<ARGB32>('A', RGB::white()).is_none());
}

#[test]
fn draw_text_places_and_clips_glyphs() {
    let mut b = view(12, 3);
    assert_eq!(b.draw_text((1, 1).into(), RGB::red(), "\u{2}\u{1}\u{2}", &font()), Ok(()));
    let fg = red();
    let bg = ARGB32::rgb(RGB::black());
    // first glyph: code 2 at x = 1..9, rows 1..3
    for x in 1..9 {
        assert_eq!(b.get(x, 1), Some(fg));
    }
    assert_eq!(b.get(1, 2), Some(fg));
    assert_eq!(b.get(2, 2), Some(bg));
    assert_eq!(b.get(8, 2), Some(fg));
    // second glyph: code 1 at x = 9.., clipped to three columns
    assert_eq!(b.get(9, 1), Some(fg));
    assert_eq!(b.get(10, 1), Some(bg));
    assert_eq!(b.get(11, 1), Some(fg));
    assert_eq!(b.get(11, 2), Some(bg));
    // row 0 and column 0 untouched
    assert_eq!(b.get(0, 1), Some(ARGB32(0)));
    assert_eq!(b.get(5, 0), Some(ARGB32(0)));
}

#[test]
fn draw_text_stops_at_missing_glyph() {
    let mut b = view(40, 2);
    assert_eq!(b.draw_text((0, 0).into(), RGB::red(), "\u{2}A\u{2}", &font()), Ok(()));
    assert_eq!(b.get(7, 0), Some(red()));
    assert_eq!(b.get(8, 0), Some(ARGB32(0)));
    assert_eq!(b.get(16, 0), Some(ARGB32(0)));
}

#[test]
fn draw_text_origin_outside_fails() {
    let mut b = view(4, 4);
    assert_eq!(b.draw_text((4, 0).into(), RGB::red(), "a", &font()), Err(BitMapError::OverFlowX { x: 4, width: 4 }));
}
