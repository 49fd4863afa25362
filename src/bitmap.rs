use vstd::prelude::*;
use crate::asc_fonts::AsciiFont;
use crate::pix_type::{PixExt, RGB};
use vstd::string::StrSliceExecFns;

verus! {

/// What a drawing call can report.
#[derive(Debug, PartialEq, Eq, Structural)]
pub enum BitMapError {
    /// The buffer holds `buffer` bytes but the view needs `total`.
    NotEnoughBuffer { buffer: usize, total: usize },
    /// The origin column `x` is not inside a view of this `width`.
    OverFlowX { x: usize, width: usize },
    /// The origin row `y` is not inside a view of this `height`.
    OverFlowY { y: usize, height: usize },
}

pub type BitMapResult<T> = Result<T, BitMapError>;

/// Pixel coordinates, origin at the top-left corner of a view.
#[derive(Clone, Copy, Debug, PartialEq, Eq, Structural)]
pub struct Point {
    pub x: usize,
    pub y: usize,
}

impl From<(usize, usize)> for Point {
    fn from(value: (usize, usize)) -> (r: Self) {
        Point { x: value.0, y: value.1 }
    }
}

impl vstd::std_specs::convert::FromSpecImpl<(usize, usize)> for Point {
    open spec fn obeys_from_spec() -> bool {
        true
    }

    open spec fn from_spec(v: (usize, usize)) -> Point {
        Point { x: v.0, y: v.1 }
    }
}

/// `new` is `old` with every cell `(x, y)` of the `w` x `h` window for which
/// `f` gives a value replaced by that value; cells that `f` leaves alone and
/// storage past the window keep their old value.
pub open spec fn repaint<T>(
    old: Seq<T>,
    new: Seq<T>,
    w: int,
    h: int,
    f: spec_fn(int, int) -> Option<T>,
) -> bool {
    &&& new.len() == old.len()
    &&& forall|k: int|
        0 <= k < old.len() ==> #[trigger] new[k] == (if k < w * h && f(k % w, k / w) is Some {
            f(k % w, k / w)->Some_0
        } else {
            old[k]
        })
}

/// Paint the cells for which `hit` holds with `v`.
pub open spec fn paint<T>(hit: spec_fn(int, int) -> bool, v: T) -> spec_fn(int, int) -> Option<T> {
    |x: int, y: int|
        if hit(x, y) {
            Some(v)
        } else {
            None
        }
}

proof fn lemma_cell_of_index(w: int, h: int, k: int)
    requires
        0 <= w,
        0 <= h,
        0 <= k < w * h,
    ensures
        0 <= k % w < w,
        0 <= k / w < h,
        k == (k / w) * w + k % w,
{
    assert(0 < w) by (nonlinear_arith)
        requires
            0 <= w,
            0 <= h,
            0 <= k < w * h,
    ;
    assert(0 <= k % w < w && k == (k / w) * w + k % w) by (nonlinear_arith)
        requires
            0 < w,
            0 <= k,
    ;
    assert(0 <= k / w < h) by (nonlinear_arith)
        requires
            0 < w,
            0 <= k < w * h,
            k == (k / w) * w + k % w,
            0 <= k % w < w,
    ;
}

proof fn lemma_index_of_cell(w: int, h: int, x: int, y: int)
    requires
        0 <= x < w,
        0 <= y < h,
    ensures
        0 <= y * w + x < w * h,
        (y * w + x) % w == x,
        (y * w + x) / w == y,
{
    assert(0 <= y * w + x < w * h) by (nonlinear_arith)
        requires
            0 <= x < w,
            0 <= y < h,
    ;
    vstd::arithmetic::div_mod::lemma_fundamental_div_mod_converse(y * w + x, w, y, x);
}

/// Writing one cell extends a repaint by that cell.
proof fn lemma_repaint_put<T>(
    old: Seq<T>,
    mid: Seq<T>,
    w: int,
    h: int,
    f: spec_fn(int, int) -> Option<T>,
    g: spec_fn(int, int) -> Option<T>,
    x: int,
    y: int,
    v: T,
)
    requires
        repaint(old, mid, w, h, f),
        0 <= x < w,
        0 <= y < h,
        w * h <= old.len(),
        g(x, y) == Some(v),
        forall|px: int, py: int|
            0 <= px < w && 0 <= py < h && !(px == x && py == y) ==> #[trigger] g(px, py) == f(px, py),
    ensures
        repaint(old, mid.update(y * w + x, v), w, h, g),
{
    lemma_index_of_cell(w, h, x, y);
    let new = mid.update(y * w + x, v);
    assert forall|k: int| 0 <= k < old.len() implies #[trigger] new[k] == (if k < w * h && g(k % w, k / w) is Some {
        g(k % w, k / w)->Some_0
    } else {
        old[k]
    }) by {
        if k < w * h {
            lemma_cell_of_index(w, h, k);
        }
    }
}

/// Two repaints in a row: a cell takes the later value where the later
/// repaint gives one, else the earlier.
proof fn lemma_repaint_then<T>(
    a: Seq<T>,
    b: Seq<T>,
    c: Seq<T>,
    w: int,
    h: int,
    f: spec_fn(int, int) -> Option<T>,
    g: spec_fn(int, int) -> Option<T>,
    fg: spec_fn(int, int) -> Option<T>,
)
    requires
        0 <= w,
        0 <= h,
        repaint(a, b, w, h, f),
        repaint(b, c, w, h, g),
        forall|x: int, y: int|
            0 <= x < w && 0 <= y < h ==> #[trigger] fg(x, y) == (if g(x, y) is Some {
                g(x, y)
            } else {
                f(x, y)
            }),
    ensures
        repaint(a, c, w, h, fg),
{
    assert forall|k: int| 0 <= k < a.len() implies #[trigger] c[k] == (if k < w * h && fg(k % w, k / w) is Some {
        fg(k % w, k / w)->Some_0
    } else {
        a[k]
    }) by {
        if k < w * h {
            lemma_cell_of_index(w, h, k);
        }
        assert(c[k] == b[k] || k < w * h);
    }
}

/// A repaint depends only on what `f` gives inside the window.
proof fn lemma_repaint_same<T>(
    a: Seq<T>,
    b: Seq<T>,
    w: int,
    h: int,
    f: spec_fn(int, int) -> Option<T>,
    g: spec_fn(int, int) -> Option<T>,
)
    requires
        0 <= w,
        0 <= h,
        repaint(a, b, w, h, f),
        forall|x: int, y: int| 0 <= x < w && 0 <= y < h ==> #[trigger] g(x, y) == f(x, y),
    ensures
        repaint(a, b, w, h, g),
{
    assert forall|k: int| 0 <= k < a.len() implies #[trigger] b[k] == (if k < w * h && g(k % w, k / w) is Some {
        g(k % w, k / w)->Some_0
    } else {
        a[k]
    }) by {
        if k < w * h {
            lemma_cell_of_index(w, h, k);
        }
    }
}

/// The scale of the fixed-point slope that a slanted line steps by.
pub const SLOPE_SCALE: u128 = 100;

pub open spec fn dist(a: int, b: int) -> int {
    if a >= b {
        a - b
    } else {
        b - a
    }
}

pub open spec fn min_of(a: int, b: int) -> int {
    if a <= b {
        a
    } else {
        b
    }
}

/// `from` moved `d` toward `to`.
pub open spec fn toward(from: int, to: int, d: int) -> int {
    if to >= from {
        from + d
    } else {
        from - d
    }
}

/// How many pixels a line from `(sx, sy)` to `(ex, ey)` paints: one per
/// unit along the axis of larger change, the far end left out.
pub open spec fn line_len(sx: int, sy: int, ex: int, ey: int) -> int {
    if ex == sx {
        dist(ey, sy)
    } else if ey == sy {
        dist(ex, sx)
    } else if dist(ex, sx) > dist(ey, sy) {
        dist(ex, sx)
    } else {
        dist(ey, sy)
    }
}

/// The pixel that such a line paints at step `i`. Straight lines run from
/// the smaller coordinate up; a slanted line steps one unit along its
/// driving axis and moves along the other by the slope, scaled by 100 and
/// truncated, times the step.
pub open spec fn line_point(sx: int, sy: int, ex: int, ey: int, i: int) -> (int, int) {
    if ex == sx {
        (sx, min_of(sy, ey) + i)
    } else if ey == sy {
        (min_of(sx, ex) + i, sy)
    } else if dist(ex, sx) > dist(ey, sy) {
        let slope = (SLOPE_SCALE as int * dist(ey, sy)) / dist(ex, sx);
        (toward(sx, ex, i), toward(sy, ey, (slope * i) / SLOPE_SCALE as int))
    } else {
        let slope = (SLOPE_SCALE as int * dist(ex, sx)) / dist(ey, sy);
        (toward(sx, ex, (slope * i) / SLOPE_SCALE as int), toward(sy, ey, i))
    }
}

/// The step at which the line would paint `(x, y)`, if it paints it.
pub open spec fn line_step(sx: int, sy: int, ex: int, ey: int, x: int, y: int) -> int {
    if ex == sx {
        y - min_of(sy, ey)
    } else if ey == sy {
        x - min_of(sx, ex)
    } else if dist(ex, sx) > dist(ey, sy) {
        dist(x, sx)
    } else {
        dist(y, sy)
    }
}

/// Whether the line paints `(x, y)`: it is `line_point` of some step
/// below `line_len` (that step being `line_step`).
#[verifier::opaque]
pub open spec fn on_line(sx: int, sy: int, ex: int, ey: int, x: int, y: int) -> bool {
    let i = line_step(sx, sy, ex, ey, x, y);
    &&& 0 <= i < line_len(sx, sy, ex, ey)
    &&& line_point(sx, sy, ex, ey, i) == (x, y)
}

/// `v` clamped into `0..n`.
pub open spec fn clamp(v: int, n: int) -> int {
    if v < n {
        v
    } else {
        n - 1
    }
}

/// What `draw_line` paints on a `w` x `h` view: its ends are clamped into
/// the view first.
pub open spec fn line_fn<T>(w: int, h: int, s: Point, e: Point, v: T) -> spec_fn(int, int) -> Option<T> {
    paint(|x: int, y: int| on_line(clamp(s.x as int, w), clamp(s.y as int, h), clamp(e.x as int, w), clamp(e.y as int, h), x, y), v)
}

proof fn lemma_step_of_point(sx: int, sy: int, ex: int, ey: int, i: int)
    requires
        0 <= i < line_len(sx, sy, ex, ey),
        0 <= sx,
        0 <= sy,
        0 <= ex,
        0 <= ey,
    ensures
        line_step(sx, sy, ex, ey, line_point(sx, sy, ex, ey, i).0, line_point(sx, sy, ex, ey, i).1) == i,
        on_line(sx, sy, ex, ey, line_point(sx, sy, ex, ey, i).0, line_point(sx, sy, ex, ey, i).1),
{
    reveal(on_line);
}

/// A painted pixel is the only one of its step, and its step is in range.
proof fn lemma_on_line_step(sx: int, sy: int, ex: int, ey: int, x: int, y: int)
    requires
        on_line(sx, sy, ex, ey, x, y),
    ensures
        0 <= line_step(sx, sy, ex, ey, x, y) < line_len(sx, sy, ex, ey),
        (x, y) == line_point(sx, sy, ex, ey, line_step(sx, sy, ex, ey, x, y)),
{
    reveal(on_line);
}

/// The pixel of step `i`, inside the view when both ends are.
proof fn lemma_point_inside(sx: int, sy: int, ex: int, ey: int, i: int, w: int, h: int)
    requires
        0 <= i < line_len(sx, sy, ex, ey),
        0 <= sx < w,
        0 <= sy < h,
        0 <= ex < w,
        0 <= ey < h,
    ensures
        0 <= line_point(sx, sy, ex, ey, i).0 < w,
        0 <= line_point(sx, sy, ex, ey, i).1 < h,
{
    if ex != sx && ey != sy {
        if dist(ex, sx) > dist(ey, sy) {
            lemma_slope_step(dist(ex, sx), dist(ey, sy), i);
        } else {
            lemma_slope_step(dist(ey, sy), dist(ex, sx), i);
        }
    }
}

/// Along a slanted line the minor axis never moves past its end.
proof fn lemma_slope_step(major: int, minor: int, i: int)
    requires
        0 < minor <= major,
        0 <= i < major,
    ensures
        0 <= ((SLOPE_SCALE as int * minor) / major) <= SLOPE_SCALE as int,
        0 <= (((SLOPE_SCALE as int * minor) / major) * i) / SLOPE_SCALE as int <= minor,
{
    let slope = (100 * minor) / major;
    assert(0 <= slope <= 100 && slope * major <= 100 * minor) by (nonlinear_arith)
        requires
            0 < minor <= major,
            slope == (100 * minor) / major,
    ;
    assert(0 <= slope * i <= 100 * minor) by (nonlinear_arith)
        requires
            0 <= slope,
            0 <= i < major,
            slope * major <= 100 * minor,
    ;
    assert(0 <= (slope * i) / 100 <= minor) by (nonlinear_arith)
        requires
            0 <= slope * i <= 100 * minor,
    ;
}

/// The pixel of step `i` of a line whose ends lie inside a `w` x `h` view.
fn line_pixel(sx: usize, sy: usize, ex: usize, ey: usize, i: usize, w: Ghost<int>, h: Ghost<int>) -> (r: (usize, usize))
    requires
        0 <= i < line_len(sx as int, sy as int, ex as int, ey as int),
        sx < w@,
        sy < h@,
        ex < w@,
        ey < h@,
    ensures
        (r.0 as int, r.1 as int) == line_point(sx as int, sy as int, ex as int, ey as int, i as int),
        r.0 < w@,
        r.1 < h@,
{
    proof {
        lemma_point_inside(sx as int, sy as int, ex as int, ey as int, i as int, w@, h@);
    }
    let adx: usize = if ex >= sx { ex - sx } else { sx - ex };
    let ady: usize = if ey >= sy { ey - sy } else { sy - ey };
    if ex == sx {
        (sx, if sy <= ey { sy } else { ey } + i)
    } else if ey == sy {
        (if sx <= ex { sx } else { ex } + i, sy)
    } else if adx > ady {
        proof {
            lemma_slope_step(adx as int, ady as int, i as int);
        }
        let slope: u128 = (SLOPE_SCALE * ady as u128) / adx as u128;
        let off = ((slope * i as u128) / SLOPE_SCALE) as usize;
        let x = if ex >= sx { sx + i } else { sx - i };
        let y = if ey >= sy { sy + off } else { sy - off };
        (x, y)
    } else {
        proof {
            lemma_slope_step(ady as int, adx as int, i as int);
        }
        let slope: u128 = (SLOPE_SCALE * adx as u128) / ady as u128;
        let off = ((slope * i as u128) / SLOPE_SCALE) as usize;
        let x = if ex >= sx { sx + off } else { sx - off };
        let y = if ey >= sy { sy + i } else { sy - i };
        (x, y)
    }
}

/// A straight row from `(sx, y)` to `(ex, y)` paints `sx..ex` of that row.
proof fn lemma_row(sx: int, ex: int, y: int, px: int, py: int)
    requires
        0 <= sx <= ex,
    ensures
        on_line(sx, y, ex, y, px, py) <==> (py == y && sx <= px < ex),
{
    reveal(on_line);
}

/// The pixels that `draw_rectagle` paints: the four edges from the top-left
/// corner `(x0, y0)` to the far corner clamped into the view, drawn as
/// lines top, left, right, bottom.
pub open spec fn rect_hit(w: int, h: int, x0: int, y0: int, rw: int, rh: int, x: int, y: int) -> bool {
    let x1 = clamp(x0 + rw, w);
    let y1 = clamp(y0 + rh, h);
    ||| on_line(x0, y0, x1, y0, x, y)
    ||| on_line(x0, y0, x0, y1, x, y)
    ||| on_line(x1, y1, x1, y0, x, y)
    ||| on_line(x1, y1, x0, y1, x, y)
}

/// The pixels that `fill_rectagle` paints: columns from `x0` up to the far
/// column (clamped, left out), rows from `y0` through the far row
/// (clamped, included).
pub open spec fn fill_hit(w: int, h: int, x0: int, y0: int, rw: int, rh: int, x: int, y: int) -> bool {
    &&& x0 <= x < clamp(x0 + rw, w)
    &&& y0 <= y <= clamp(y0 + rh, h)
}

/// `old` with the cells of the `w` x `h` window for which `f` gives a
/// value replaced by it: the one sequence that `repaint` allows.
pub open spec fn apply<T>(old: Seq<T>, w: int, h: int, f: spec_fn(int, int) -> Option<T>) -> Seq<T> {
    Seq::new(
        old.len(),
        |k: int|
            if k < w * h && f(k % w, k / w) is Some {
                f(k % w, k / w)->Some_0
            } else {
                old[k]
            },
    )
}

proof fn lemma_repaint_apply<T>(old: Seq<T>, new: Seq<T>, w: int, h: int, f: spec_fn(int, int) -> Option<T>)
    requires
        repaint(old, new, w, h, f),
    ensures
        new == apply(old, w, h, f),
{
    assert(new =~= apply(old, w, h, f));
}

/// What `draw_text` leaves in a `w` x `h` view holding `px`: the glyph of
/// each character of `chars` blitted in turn at `(x, y)`, `x` moving right
/// by a glyph width each time, until the text ends, `x` leaves the view,
/// or the font has no glyph for the character.
pub open spec fn text_pixels<T: PixExt>(
    px: Seq<T>,
    w: int,
    h: int,
    font: &AsciiFont,
    chars: Seq<char>,
    x: int,
    y: int,
    color: RGB,
) -> Seq<T>
    decreases chars.len(),
{
    if chars.len() == 0 || x >= w || !font.has_glyph(chars[0]) {
        px
    } else {
        let glyph = font.glyph_pixels::<T>(chars[0], color);
        let at = Point { x: x as usize, y: y as usize };
        let next = apply(px, w, h, BitMap::<T>::blit_fn(glyph, font.spec_width(), font.spec_height(), at));
        text_pixels(next, w, h, font, chars.drop_first(), x + font.spec_width(), y, color)
    }
}

/// A byte count as the error reports it: capped at `usize::MAX`.
pub open spec fn byte_count(n: int) -> usize {
    if n > usize::MAX {
        usize::MAX
    } else {
        n as usize
    }
}

/// A rectangular view of `width` x `height` pixels over a buffer that holds
/// at least that many; row `y` starts at index `y * width`.
pub struct BitMap<T> {
    data: Vec<T>,
    width: usize,
    height: usize,
}

impl<T: PixExt> BitMap<T> {
    pub closed spec fn spec_width(&self) -> int {
        self.width as int
    }

    pub closed spec fn spec_height(&self) -> int {
        self.height as int
    }

    /// The whole backing buffer.
    pub closed spec fn pixels(&self) -> Seq<T> {
        self.data@
    }

    pub open spec fn wf(&self) -> bool {
        self.pixels().len() >= self.spec_width() * self.spec_height()
    }

    /// The pixel stored at `(x, y)`.
    pub open spec fn cell(&self, x: int, y: int) -> T {
        self.pixels()[y * self.spec_width() + x]
    }

    /// Same dimensions over a buffer of the same length.
    pub open spec fn same_shape(&self, other: &Self) -> bool {
        &&& self.spec_width() == other.spec_width()
        &&& self.spec_height() == other.spec_height()
        &&& self.pixels().len() == other.pixels().len()
    }

    /// Wraps `data` as a `width` x `height` view; the buffer must hold
    /// `width * height` pixels. The error reports both sizes in bytes
    /// (capped at `usize::MAX`, which no real buffer reaches).
    pub fn new(data: Vec<T>, width: usize, height: usize) -> (r: BitMapResult<Self>)
        ensures
            data@.len() >= width * height ==> (r matches Ok(b) && b.wf() && b.pixels() == data@
                && b.spec_width() == width && b.spec_height() == height),
            data@.len() < width * height ==> r == Err::<Self, BitMapError>(
                BitMapError::NotEnoughBuffer {
                    buffer: byte_count((data@.len() * vstd::layout::size_of::<T>()) as int),
                    total: byte_count(width * height * vstd::layout::size_of::<T>() as int),
                },
            ),
    {
        let size = core::mem::size_of::<T>();
        let len = data.len();
        assert(usize::MAX <= 0xffff_ffff_ffff_ffff);
        assert(width as int * height as int <= u128::MAX && len as int * size as int <= u128::MAX) by (nonlinear_arith)
            requires
                width <= 0xffff_ffff_ffff_ffff,
                height <= 0xffff_ffff_ffff_ffff,
                len <= 0xffff_ffff_ffff_ffff,
                size <= 0xffff_ffff_ffff_ffff,
        ;
        let need: u128 = width as u128 * height as u128;
        if (len as u128) < need {
            let have: u128 = len as u128 * size as u128;
            let buffer = if have > usize::MAX as u128 { usize::MAX } else { have as usize };
            let total = if size == 0 {
                0
            } else if need > usize::MAX as u128 {
                assert(need * size >= need) by (nonlinear_arith)
                    requires
                        size >= 1,
                        need >= 0,
                ;
                usize::MAX
            } else {
                assert(need as int * size as int <= u128::MAX) by (nonlinear_arith)
                    requires
                        need <= 0xffff_ffff_ffff_ffff,
                        size <= 0xffff_ffff_ffff_ffff,
                ;
                let t: u128 = need * size as u128;
                if t > usize::MAX as u128 { usize::MAX } else { t as usize }
            };
            Err(BitMapError::NotEnoughBuffer { buffer, total })
        } else {
            Ok(BitMap { data, width, height })
        }
    }

    /// A view over a buffer already known to hold `width * height` pixels.
    pub(crate) fn from_parts(data: Vec<T>, width: usize, height: usize) -> (r: Self)
        requires
            data@.len() >= width * height,
        ensures
            r.wf(),
            r.pixels() == data@,
            r.spec_width() == width,
            r.spec_height() == height,
    {
        BitMap { data, width, height }
    }

    /// Hands the buffer back, e.g. to pass it on to a display.
    pub fn into_data(self) -> (r: Vec<T>)
        ensures
            r@ == self.pixels(),
    {
        self.data
    }

    pub fn width(&self) -> (r: usize)
        ensures
            r == self.spec_width(),
    {
        self.width
    }

    pub fn height(&self) -> (r: usize)
        ensures
            r == self.spec_height(),
    {
        self.height
    }

    /// What a draw call with origin `p` returns: the origin must lie inside.
    pub open spec fn origin_result(&self, p: Point) -> BitMapResult<()> {
        if p.x >= self.spec_width() {
            Err(BitMapError::OverFlowX { x: p.x, width: self.spec_width() as usize })
        } else if p.y >= self.spec_height() {
            Err(BitMapError::OverFlowY { y: p.y, height: self.spec_height() as usize })
        } else {
            Ok(())
        }
    }

    /// Whether the raw accessors take `(x, y)`: each coordinate may reach
    /// the view's width or height itself, one past the last column or row,
    /// so long as the index stays within the buffer.
    pub open spec fn raw_in_range(&self, x: int, y: int) -> bool {
        &&& x <= self.spec_width()
        &&& y <= self.spec_height()
        &&& y * self.spec_width() + x < self.pixels().len()
    }

    /// The stored pixel at `(x, y)`, or `None` where the raw accessors do
    /// not reach.
    pub fn get(&self, x: usize, y: usize) -> (r: Option<T>)
        requires
            self.wf(),
        ensures
            r == (if self.raw_in_range(x as int, y as int) {
                Some(self.cell(x as int, y as int))
            } else {
                None
            }),
    {
        if x > self.width || y > self.height {
            None
        } else {
            let n = self.data.len();
            assert(y * self.width <= self.width * self.height) by (nonlinear_arith)
                requires
                    y <= self.height,
            ;
            let row = y * self.width;
            if x < n - row {
                Some(self.data[row + x])
            } else {
                None
            }
        }
    }

    /// Stores `val` at `(x, y)`; a position the raw accessors do not reach
    /// is ignored.
    pub fn set(&mut self, x: usize, y: usize, val: T)
        requires
            old(self).wf(),
        ensures
            final(self).same_shape(old(self)),
            final(self).pixels() == (if old(self).raw_in_range(x as int, y as int) {
                old(self).pixels().update(y * old(self).spec_width() + x, val)
            } else {
                old(self).pixels()
            }),
    {
        if x > self.width || y > self.height {
        } else {
            let n = self.data.len();
            assert(y * self.width <= self.width * self.height) by (nonlinear_arith)
                requires
                    y <= self.height,
            ;
            let row = y * self.width;
            if x < n - row {
                self.data.set(row + x, val);
            }
        }
    }

    fn put(&mut self, x: usize, y: usize, val: T)
        requires
            old(self).wf(),
            x < old(self).spec_width(),
            y < old(self).spec_height(),
        ensures
            final(self).same_shape(old(self)),
            final(self).pixels() == old(self).pixels().update(y * old(self).spec_width() + x, val),
    {
        let n = self.data.len();
        proof {
            lemma_index_of_cell(self.width as int, self.height as int, x as int, y as int);
        }
        self.data.set(y * self.width + x, val);
    }

    /// Writes one pixel of `color` at `p`.
    pub fn draw_pix(&mut self, p: Point, color: RGB) -> (r: BitMapResult<()>)
        requires
            old(self).wf(),
        ensures
            r == old(self).origin_result(p),
            r is Err ==> *final(self) == *old(self),
            r is Ok ==> final(self).same_shape(old(self)) && final(self).pixels() == old(
                self,
            ).pixels().update(p.y * old(self).spec_width() + p.x, T::spec_rgb(color)),
    {
        let val = T::rgb(color);
        if p.x >= self.width {
            return Err(BitMapError::OverFlowX { x: p.x, width: self.width });
        }
        if p.y >= self.height {
            return Err(BitMapError::OverFlowY { y: p.y, height: self.height });
        }
        self.put(p.x, p.y, val);
        Ok(())
    }

    /// Overwrites the whole buffer with the format's zero pixel.
    pub fn clear(&mut self)
        requires
            old(self).wf(),
        ensures
            final(self).same_shape(old(self)),
            final(self).pixels() == Seq::new(old(self).pixels().len(), |i: int| T::spec_zero()),
    {
        let z = T::zero();
        let n = self.data.len();
        let mut i: usize = 0;
        while i < n
            invariant
                self.wf(),
                self.same_shape(old(self)),
                n == self.pixels().len(),
                i <= n,
                z == T::spec_zero(),
                forall|j: int| 0 <= j < i ==> #[trigger] self.pixels()[j] == T::spec_zero(),
            decreases n - i,
        {
            self.data.set(i, z);
            i = i + 1;
        }
        assert(self.pixels() =~= Seq::new(n as nat, |i: int| T::spec_zero()));
    }

    /// What `bitblit` of `src` at `p` writes: each cell of the source's
    /// rectangle shifted by `p`.
    pub open spec fn blit_fn(src: Seq<T>, sw: int, sh: int, p: Point) -> spec_fn(int, int) -> Option<T> {
        |x: int, y: int|
            if p.x <= x < p.x + sw && p.y <= y < p.y + sh {
                Some(src[(y - p.y) * sw + (x - p.x)])
            } else {
                None
            }
    }

    /// Copies `src` into this view with its top-left corner at `p`, clipped
    /// to this view; every copied pixel overwrites the old one.
    pub fn bitblit(&mut self, p: Point, src: &BitMap<T>) -> (r: BitMapResult<()>)
        requires
            old(self).wf(),
            src.wf(),
        ensures
            r == old(self).origin_result(p),
            r is Err ==> *final(self) == *old(self),
            r is Ok ==> final(self).same_shape(old(self)) && repaint(
                old(self).pixels(),
                final(self).pixels(),
                old(self).spec_width(),
                old(self).spec_height(),
                Self::blit_fn(src.pixels(), src.spec_width(), src.spec_height(), p),
            ),
    {
        if p.x >= self.width {
            return Err(BitMapError::OverFlowX { x: p.x, width: self.width });
        }
        if p.y >= self.height {
            return Err(BitMapError::OverFlowY { y: p.y, height: self.height });
        }
        let xend = if src.width >= self.width - p.x {
            self.width
        } else {
            p.x + src.width
        };
        let yend = if src.height >= self.height - p.y {
            self.height
        } else {
            p.y + src.height
        };
        let ghost w = self.spec_width();
        let ghost h = self.spec_height();
        let ghost sw = src.spec_width();
        let ghost sh = src.spec_height();
        let ghost start = self.pixels();
        let ghost full = Self::blit_fn(src.pixels(), sw, sh, p);
        proof {
            lemma_repaint_same(start, start, w, h, |x: int, y: int| None, |x: int, y: int| None);
            assert(repaint(start, start, w, h, |x: int, y: int| None::<T>));
        }
        let mut i: usize = p.x;
        while i < xend
            invariant
                p.x <= i <= xend,
                p.x < w,
                p.y < h,
                full == Self::blit_fn(src.pixels(), sw, sh, p),
                self.wf(),
                self.same_shape(old(self)),
                w == self.spec_width(),
                h == self.spec_height(),
                src.wf(),
                sw == src.spec_width(),
                sh == src.spec_height(),
                start == old(self).pixels(),
                xend <= w,
                yend <= h,
                xend == (if p.x + sw >= w { w } else { p.x + sw }),
                yend == (if p.y + sh >= h { h } else { p.y + sh }),
                repaint(
                    start,
                    self.pixels(),
                    w,
                    h,
                    |x: int, y: int|
                        if p.x <= x < i && p.y <= y < yend {
                            full(x, y)
                        } else {
                            None
                        },
                ),
            decreases xend - i,
        {
            proof {
                lemma_repaint_same(
                    start,
                    self.pixels(),
                    w,
                    h,
                    |x: int, y: int|
                        if p.x <= x < i && p.y <= y < yend {
                            full(x, y)
                        } else {
                            None
                        },
                    |x: int, y: int|
                        if (p.x <= x < i && p.y <= y < yend) || (x == i && p.y <= y < p.y) {
                            full(x, y)
                        } else {
                            None
                        },
                );
            }
            let mut j: usize = p.y;
            while j < yend
                invariant
                    p.y <= j <= yend,
                    p.x < w,
                    p.y < h,
                    full == Self::blit_fn(src.pixels(), sw, sh, p),
                    self.wf(),
                    self.same_shape(old(self)),
                    w == self.spec_width(),
                    h == self.spec_height(),
                    src.wf(),
                    sw == src.spec_width(),
                    sh == src.spec_height(),
                    start == old(self).pixels(),
                    p.x <= i < xend,
                    xend <= w,
                    yend <= h,
                    xend == (if p.x + sw >= w { w } else { p.x + sw }),
                    yend == (if p.y + sh >= h { h } else { p.y + sh }),
                    repaint(
                        start,
                        self.pixels(),
                        w,
                        h,
                        |x: int, y: int|
                            if (p.x <= x < i && p.y <= y < yend) || (x == i && p.y <= y < j) {
                                full(x, y)
                            } else {
                                None
                            },
                    ),
                decreases yend - j,
            {
                let ghost before = self.pixels();
                let got = src.get(i - p.x, j - p.y);
                proof {
                    lemma_index_of_cell(sw, sh, (i - p.x) as int, (j - p.y) as int);
                }
                if let Some(val) = got {
                    assert(val == src.cell(i - p.x, j - p.y));
                    assert(i < p.x + sw && j < p.y + sh);
                    assert(full(i as int, j as int) == Some(val));
                    self.set(i, j, val);
                    proof {
                        lemma_index_of_cell(w, h, i as int, j as int);
                        lemma_repaint_put(
                            start,
                            before,
                            w,
                            h,
                            |x: int, y: int|
                                if (p.x <= x < i && p.y <= y < yend) || (x == i && p.y <= y < j) {
                                    full(x, y)
                                } else {
                                    None
                                },
                            |x: int, y: int|
                                if (p.x <= x < i && p.y <= y < yend) || (x == i && p.y <= y < j + 1) {
                                    full(x, y)
                                } else {
                                    None
                                },
                            i as int,
                            j as int,
                            val,
                        );
                    }
                }
                j = j + 1;
            }
            proof {
                lemma_repaint_same(
                    start,
                    self.pixels(),
                    w,
                    h,
                    |x: int, y: int|
                        if (p.x <= x < i && p.y <= y < yend) || (x == i && p.y <= y < yend) {
                            full(x, y)
                        } else {
                            None
                        },
                    |x: int, y: int|
                        if p.x <= x < i + 1 && p.y <= y < yend {
                            full(x, y)
                        } else {
                            None
                        },
                );
            }
            i = i + 1;
        }
        proof {
            lemma_repaint_same(
                start,
                self.pixels(),
                w,
                h,
                |x: int, y: int|
                    if p.x <= x < xend && p.y <= y < yend {
                        full(x, y)
                    } else {
                        None
                    },
                full,
            );
        }
        Ok(())
    }

    /// Paints the line between two pixels of the view with `val`.
    fn paint_line(&mut self, sx: usize, sy: usize, ex: usize, ey: usize, val: T)
        requires
            old(self).wf(),
            sx < old(self).spec_width(),
            sy < old(self).spec_height(),
            ex < old(self).spec_width(),
            ey < old(self).spec_height(),
        ensures
            final(self).same_shape(old(self)),
            repaint(
                old(self).pixels(),
                final(self).pixels(),
                old(self).spec_width(),
                old(self).spec_height(),
                paint(|x: int, y: int| on_line(sx as int, sy as int, ex as int, ey as int, x, y), val),
            ),
    {
        let adx: usize = if ex >= sx { ex - sx } else { sx - ex };
        let ady: usize = if ey >= sy { ey - sy } else { sy - ey };
        let n: usize = if ex == sx {
            ady
        } else if ey == sy {
            adx
        } else if adx > ady {
            adx
        } else {
            ady
        };
        let ghost w = self.spec_width();
        let ghost h = self.spec_height();
        let ghost before = self.pixels();
        let ghost hit = |x: int, y: int| on_line(sx as int, sy as int, ex as int, ey as int, x, y);
        proof {
            assert forall|x: int, y: int| #[trigger] hit(x, y) implies line_step(sx as int, sy as int, ex as int, ey as int, x, y) >= 0 by {
                lemma_on_line_step(sx as int, sy as int, ex as int, ey as int, x, y);
            }
            lemma_repaint_same(
                before,
                before,
                w,
                h,
                |x: int, y: int| None,
                paint(|x: int, y: int| hit(x, y) && line_step(sx as int, sy as int, ex as int, ey as int, x, y) < 0, val),
            );
        }
        let mut i: usize = 0;
        while i < n
            invariant
                self.wf(),
                self.same_shape(old(self)),
                w == self.spec_width(),
                h == self.spec_height(),
                before == old(self).pixels(),
                sx < w,
                sy < h,
                ex < w,
                ey < h,
                n == line_len(sx as int, sy as int, ex as int, ey as int),
                i <= n,
                hit == (|x: int, y: int| on_line(sx as int, sy as int, ex as int, ey as int, x, y)),
                repaint(
                    before,
                    self.pixels(),
                    w,
                    h,
                    paint(|x: int, y: int| hit(x, y) && line_step(sx as int, sy as int, ex as int, ey as int, x, y) < i, val),
                ),
            decreases n - i,
        {
            let (x, y) = line_pixel(sx, sy, ex, ey, i, Ghost(w), Ghost(h));
            let ghost cur = self.pixels();
            self.put(x, y, val);
            proof {
                lemma_step_of_point(sx as int, sy as int, ex as int, ey as int, i as int);
                assert forall|px: int, py: int| #[trigger] hit(px, py) && line_step(sx as int, sy as int, ex as int, ey as int, px, py) == i implies px == x && py == y by {
                    lemma_on_line_step(sx as int, sy as int, ex as int, ey as int, px, py);
                }
                lemma_repaint_put(
                    before,
                    cur,
                    w,
                    h,
                    paint(|x: int, y: int| hit(x, y) && line_step(sx as int, sy as int, ex as int, ey as int, x, y) < i, val),
                    paint(|x: int, y: int| hit(x, y) && line_step(sx as int, sy as int, ex as int, ey as int, x, y) < i + 1, val),
                    x as int,
                    y as int,
                    val,
                );
            }
            i = i + 1;
        }
        proof {
            assert forall|x: int, y: int| #[trigger] hit(x, y) implies line_step(sx as int, sy as int, ex as int, ey as int, x, y) < n by {
                lemma_on_line_step(sx as int, sy as int, ex as int, ey as int, x, y);
            }
            lemma_repaint_same(
                before,
                self.pixels(),
                w,
                h,
                paint(|x: int, y: int| hit(x, y) && line_step(sx as int, sy as int, ex as int, ey as int, x, y) < n, val),
                paint(hit, val),
            );
        }
    }

    /// What `draw_line` returns: it fails only on a view with no pixels.
    pub open spec fn line_result(&self, start: Point) -> BitMapResult<()> {
        if self.spec_width() == 0 {
            Err(BitMapError::OverFlowX { x: start.x, width: 0 })
        } else if self.spec_height() == 0 {
            Err(BitMapError::OverFlowY { y: start.y, height: 0 })
        } else {
            Ok(())
        }
    }

    /// Rasterizes a line of `color` from `start` toward `end`, both first
    /// clamped into the view; see `line_point` for the pixels painted.
    pub fn draw_line(&mut self, start: Point, end: Point, color: RGB) -> (r: BitMapResult<()>)
        requires
            old(self).wf(),
        ensures
            r == old(self).line_result(start),
            r is Err ==> *final(self) == *old(self),
            r is Ok ==> final(self).same_shape(old(self)) && repaint(
                old(self).pixels(),
                final(self).pixels(),
                old(self).spec_width(),
                old(self).spec_height(),
                line_fn(old(self).spec_width(), old(self).spec_height(), start, end, T::spec_rgb(color)),
            ),
    {
        if self.width == 0 {
            return Err(BitMapError::OverFlowX { x: start.x, width: 0 });
        }
        if self.height == 0 {
            return Err(BitMapError::OverFlowY { y: start.y, height: 0 });
        }
        let val = T::rgb(color);
        let sx = if start.x < self.width { start.x } else { self.width - 1 };
        let sy = if start.y < self.height { start.y } else { self.height - 1 };
        let ex = if end.x < self.width { end.x } else { self.width - 1 };
        let ey = if end.y < self.height { end.y } else { self.height - 1 };
        let ghost w = self.spec_width();
        let ghost h = self.spec_height();
        self.paint_line(sx, sy, ex, ey, val);
        let ghost hit = |x: int, y: int| on_line(sx as int, sy as int, ex as int, ey as int, x, y);
        proof {
            lemma_repaint_same(
                old(self).pixels(),
                self.pixels(),
                w,
                h,
                paint(hit, val),
                line_fn(w, h, start, end, val),
            );
        }
        Ok(())
    }

    /// Strokes the outline of a `width` x `height` rectangle at `topleft`
    /// as four lines; the origin must lie inside the view.
    pub fn draw_rectagle(&mut self, topleft: Point, width: usize, height: usize, color: RGB) -> (r: BitMapResult<()>)
        requires
            old(self).wf(),
        ensures
            r == old(self).origin_result(topleft),
            r is Err ==> *final(self) == *old(self),
            r is Ok ==> final(self).same_shape(old(self)) && repaint(
                old(self).pixels(),
                final(self).pixels(),
                old(self).spec_width(),
                old(self).spec_height(),
                paint(
                    |x: int, y: int|
                        rect_hit(
                            old(self).spec_width(),
                            old(self).spec_height(),
                            topleft.x as int,
                            topleft.y as int,
                            width as int,
                            height as int,
                            x,
                            y,
                        ),
                    T::spec_rgb(color),
                ),
            ),
    {
        if topleft.x >= self.width {
            return Err(BitMapError::OverFlowX { x: topleft.x, width: self.width });
        }
        if topleft.y >= self.height {
            return Err(BitMapError::OverFlowY { y: topleft.y, height: self.height });
        }
        let right = if width > usize::MAX - topleft.x { usize::MAX } else { topleft.x + width };
        let bottom = if height > usize::MAX - topleft.y { usize::MAX } else { topleft.y + height };
        let topright = Point { x: right, y: topleft.y };
        let bottomleft = Point { x: topleft.x, y: bottom };
        let bottomright = Point { x: right, y: bottom };
        let ghost w = self.spec_width();
        let ghost h = self.spec_height();
        let ghost v = T::spec_rgb(color);
        let ghost p0 = self.pixels();
        let _ = self.draw_line(topleft, topright, color);
        let ghost p1 = self.pixels();
        let _ = self.draw_line(topleft, bottomleft, color);
        let ghost p2 = self.pixels();
        let _ = self.draw_line(bottomright, topright, color);
        let ghost p3 = self.pixels();
        let _ = self.draw_line(bottomright, bottomleft, color);
        proof {
            let f1 = line_fn(w, h, topleft, topright, v);
            let f2 = line_fn(w, h, topleft, bottomleft, v);
            let f3 = line_fn(w, h, bottomright, topright, v);
            let f4 = line_fn(w, h, bottomright, bottomleft, v);
            let f12 = |x: int, y: int| if f2(x, y) is Some { f2(x, y) } else { f1(x, y) };
            let f123 = |x: int, y: int| if f3(x, y) is Some { f3(x, y) } else { f12(x, y) };
            let f1234 = |x: int, y: int| if f4(x, y) is Some { f4(x, y) } else { f123(x, y) };
            lemma_repaint_then(p0, p1, p2, w, h, f1, f2, f12);
            lemma_repaint_then(p0, p2, p3, w, h, f12, f3, f123);
            lemma_repaint_then(p0, p3, self.pixels(), w, h, f123, f4, f1234);
            lemma_repaint_same(
                p0,
                self.pixels(),
                w,
                h,
                f1234,
                paint(|x: int, y: int| rect_hit(w, h, topleft.x as int, topleft.y as int, width as int, height as int, x, y), v),
            );
        }
        Ok(())
    }

    /// Fills a `width` x `height` rectangle at `topleft` with one line per
    /// row, through row `topleft.y + height` inclusive; the origin must lie
    /// inside the view.
    pub fn fill_rectagle(&mut self, topleft: Point, width: usize, height: usize, color: RGB) -> (r: BitMapResult<()>)
        requires
            old(self).wf(),
        ensures
            r == old(self).origin_result(topleft),
            r is Err ==> *final(self) == *old(self),
            r is Ok ==> final(self).same_shape(old(self)) && repaint(
                old(self).pixels(),
                final(self).pixels(),
                old(self).spec_width(),
                old(self).spec_height(),
                paint(
                    |x: int, y: int|
                        fill_hit(
                            old(self).spec_width(),
                            old(self).spec_height(),
                            topleft.x as int,
                            topleft.y as int,
                            width as int,
                            height as int,
                            x,
                            y,
                        ),
                    T::spec_rgb(color),
                ),
            ),
    {
        if topleft.x >= self.width {
            return Err(BitMapError::OverFlowX { x: topleft.x, width: self.width });
        }
        if topleft.y >= self.height {
            return Err(BitMapError::OverFlowY { y: topleft.y, height: self.height });
        }
        let xe = if width >= self.width - topleft.x { self.width - 1 } else { topleft.x + width };
        let ye = if height >= self.height - topleft.y { self.height - 1 } else { topleft.y + height };
        let ghost w = self.spec_width();
        let ghost h = self.spec_height();
        let ghost v = T::spec_rgb(color);
        let ghost p0 = self.pixels();
        let ghost x0 = topleft.x as int;
        let ghost y0 = topleft.y as int;
        proof {
            lemma_repaint_same(
                p0,
                p0,
                w,
                h,
                |x: int, y: int| None,
                paint(|x: int, y: int| x0 <= x < xe && y0 <= y < y0, v),
            );
        }
        let mut y: usize = topleft.y;
        while y <= ye
            invariant
                self.wf(),
                self.same_shape(old(self)),
                w == self.spec_width(),
                h == self.spec_height(),
                p0 == old(self).pixels(),
                x0 == topleft.x,
                y0 == topleft.y,
                x0 <= xe < w,
                y0 <= y <= ye + 1,
                ye < h,
                v == T::spec_rgb(color),
                repaint(p0, self.pixels(), w, h, paint(|x: int, yy: int| x0 <= x < xe && y0 <= yy < y, v)),
            decreases ye + 1 - y,
        {
            let ghost before = self.pixels();
            let _ = self.draw_line(Point { x: topleft.x, y }, Point { x: xe, y }, color);
            proof {
                let row = line_fn(w, h, Point { x: topleft.x, y }, Point { x: xe, y }, v);
                let done = paint(|x: int, yy: int| x0 <= x < xe && y0 <= yy < y, v);
                let next = paint(|x: int, yy: int| x0 <= x < xe && y0 <= yy < y + 1, v);
                assert forall|px: int, py: int| 0 <= px < w && 0 <= py < h implies #[trigger] next(px, py) == (if row(px, py) is Some {
                    row(px, py)
                } else {
                    done(px, py)
                }) by {
                    lemma_row(x0, xe as int, y as int, px, py);
                }
                lemma_repaint_then(p0, before, self.pixels(), w, h, done, row, next);
            }
            y = y + 1;
        }
        proof {
            lemma_repaint_same(
                p0,
                self.pixels(),
                w,
                h,
                paint(|x: int, yy: int| x0 <= x < xe && y0 <= yy < y, v),
                paint(|x: int, yy: int| fill_hit(w, h, x0, y0, width as int, height as int, x, yy), v),
            );
        }
        Ok(())
    }

    /// Writes `text` left to right from `topleft` in glyphs of `font`,
    /// stopping without error at the first glyph that starts outside the
    /// view or that the font lacks; the origin must lie inside the view.
    pub fn draw_text(&mut self, topleft: Point, color: RGB, text: &str, font: &AsciiFont) -> (r: BitMapResult<()>)
        requires
            old(self).wf(),
            font.wf(),
        ensures
            r == old(self).origin_result(topleft),
            r is Err ==> *final(self) == *old(self),
            r is Ok ==> final(self).same_shape(old(self)) && final(self).pixels() == text_pixels(
                old(self).pixels(),
                old(self).spec_width(),
                old(self).spec_height(),
                font,
                text@,
                topleft.x as int,
                topleft.y as int,
                color,
            ),
    {
        if topleft.x >= self.width {
            return Err(BitMapError::OverFlowX { x: topleft.x, width: self.width });
        }
        if topleft.y >= self.height {
            return Err(BitMapError::OverFlowY { y: topleft.y, height: self.height });
        }
        let ghost w = self.spec_width();
        let ghost h = self.spec_height();
        let ghost chars = text@;
        let ghost goal = text_pixels(self.pixels(), w, h, font, chars, topleft.x as int, topleft.y as int, color);
        let n = text.unicode_len();
        let mut cur_x = topleft.x;
        let mut i: usize = 0;
        let mut done = false;
        proof {
            assert(chars.skip(0) =~= chars);
        }
        while i < n && !done
            invariant
                self.wf(),
                self.same_shape(old(self)),
                font.wf(),
                w == self.spec_width(),
                h == self.spec_height(),
                topleft.y < h,
                chars == text@,
                n == chars.len(),
                i <= n,
                goal == (if done {
                    self.pixels()
                } else {
                    text_pixels(self.pixels(), w, h, font, chars.skip(i as int), cur_x as int, topleft.y as int, color)
                }),
            decreases n - i, if done { 0int } else { 1int },
        {
            let c = text.get_char(i);
            let ghost rest = chars.skip(i as int);
            proof {
                assert(rest[0] == c);
                assert(rest.drop_first() =~= chars.skip(i + 1));
            }
            match font.char_bitmap::<T>(c, color) {
                None => {
                    done = true;
                },
                Some(glyph) => {
                    let bm = glyph.bitmap();
                    let fw = bm.width();
                    let ghost before = self.pixels();
                    match self.bitblit(Point { x: cur_x, y: topleft.y }, &bm) {
                        Err(_) => {
                            done = true;
                        },
                        Ok(()) => {
                            proof {
                                lemma_repaint_apply(
                                    before,
                                    self.pixels(),
                                    w,
                                    h,
                                    Self::blit_fn(bm.pixels(), bm.spec_width(), bm.spec_height(), Point { x: cur_x, y: topleft.y }),
                                );
                            }
                            let next_x = if fw > usize::MAX - cur_x { usize::MAX } else { cur_x + fw };
                            proof {
                                let far = text_pixels(self.pixels(), w, h, font, chars.skip(i + 1), cur_x + fw, topleft.y as int, color);
                                if next_x != cur_x + fw {
                                    assert(text_pixels(self.pixels(), w, h, font, chars.skip(i + 1), next_x as int, topleft.y as int, color) == self.pixels());
                                    assert(far == self.pixels());
                                }
                            }
                            cur_x = next_x;
                            i = i + 1;
                        },
                    }
                },
            }
        }
        Ok(())
    }

    /// In a view of `width` x `height` pixels, the last pixel can be drawn,
    /// while the column just right of the view and the row just below it
    /// are refused with the offending coordinate and the bound.
    pub proof fn lemma_draw_pix_bounds(&self)
        requires
            self.wf(),
            self.spec_width() > 0,
            self.spec_height() > 0,
        ensures
            self.origin_result(Point { x: (self.spec_width() - 1) as usize, y: (self.spec_height() - 1) as usize }) is Ok,
            self.origin_result(Point { x: self.spec_width() as usize, y: 0 }) == Err::<(), BitMapError>(
                BitMapError::OverFlowX { x: self.spec_width() as usize, width: self.spec_width() as usize },
            ),
            self.origin_result(Point { x: 0, y: self.spec_height() as usize }) == Err::<(), BitMapError>(
                BitMapError::OverFlowY { y: self.spec_height() as usize, height: self.spec_height() as usize },
            ),
    {
    }

    /// After `bitblit` of `src` at `p` turned `self` into `out`: where the
    /// source fits inside the view, every source pixel sits unchanged at
    /// its shifted place; and in any case nothing outside the shifted
    /// source rectangle changes, nor the buffer's length.
    pub proof fn lemma_blit_copies(&self, out: &Self, src: &Self, p: Point)
        requires
            self.wf(),
            src.wf(),
            repaint(
                self.pixels(),
                out.pixels(),
                self.spec_width(),
                self.spec_height(),
                Self::blit_fn(src.pixels(), src.spec_width(), src.spec_height(), p),
            ),
        ensures
            out.pixels().len() == self.pixels().len(),
            p.x + src.spec_width() <= self.spec_width() && p.y + src.spec_height() <= self.spec_height() ==> forall|sx: int, sy: int|
                0 <= sx < src.spec_width() && 0 <= sy < src.spec_height() ==> out.pixels()[(p.y + sy) * self.spec_width() + (p.x + sx)]
                    == #[trigger] src.cell(sx, sy),
            forall|x: int, y: int|
                0 <= x < self.spec_width() && 0 <= y < self.spec_height() && !(p.x <= x < p.x + src.spec_width() && p.y <= y < p.y
                    + src.spec_height()) ==> out.pixels()[y * self.spec_width() + x] == #[trigger] self.cell(x, y),
            forall|k: int|
                self.spec_width() * self.spec_height() <= k < self.pixels().len() ==> #[trigger] out.pixels()[k] == self.pixels()[k],
    {
        let w = self.spec_width();
        let h = self.spec_height();
        if p.x + src.spec_width() <= w && p.y + src.spec_height() <= h {
            assert forall|sx: int, sy: int| 0 <= sx < src.spec_width() && 0 <= sy < src.spec_height() implies out.pixels()[(p.y + sy) * w + (p.x + sx)]
                == #[trigger] src.cell(sx, sy) by {
                lemma_index_of_cell(w, h, p.x + sx, p.y + sy);
            }
        }
        assert forall|x: int, y: int|
            0 <= x < w && 0 <= y < h && !(p.x <= x < p.x + src.spec_width() && p.y <= y < p.y + src.spec_height()) implies out.pixels()[y * w + x]
                == #[trigger] self.cell(x, y) by {
            lemma_index_of_cell(w, h, x, y);
        }
    }
}

} // verus!
