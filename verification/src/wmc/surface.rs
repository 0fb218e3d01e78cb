use vstd::prelude::*;
use crate::wmc::theme::{Color, pack, mix, channel};
use vstd::arithmetic::div_mod::lemma_fundamental_div_mod_converse;

verus! {

#[derive(Clone, Copy, Debug, PartialEq, Eq, Structural)]
pub struct Rect {
    pub x: i32,
    pub y: i32,
    pub w: u16,
    pub h: u16,
}

/// `v` held at zero from below.
pub open spec fn max0(v: int) -> int {
    if v < 0 { 0 } else { v }
}

impl Rect {
    /// The rectangle's right and bottom edges fit in `i32`.
    pub open spec fn edges_fit(&self) -> bool {
        self.x + self.w <= i32::MAX && self.y + self.h <= i32::MAX
    }

    /// Whether the point lies inside: left and top edges included, right and bottom excluded.
    pub open spec fn spec_contains(&self, px: int, py: int) -> bool {
        self.x <= px < self.x + self.w && self.y <= py < self.y + self.h
    }

    /// What `contains(px, py)` computes without overflow: the right edge once the point is at
    /// or below and right of the top left corner, the bottom edge once it is also left of the
    /// right edge.
    pub open spec fn contains_ok(&self, px: int, py: int) -> bool {
        &&& (px >= self.x && py >= self.y) ==> self.x + self.w <= i32::MAX
        &&& (px >= self.x && py >= self.y && px < self.x + self.w) ==> self.y + self.h <= i32::MAX
    }

    pub fn contains(&self, px: i32, py: i32) -> (res: bool)
        requires
            self.contains_ok(px as int, py as int),
        ensures
            res == self.spec_contains(px as int, py as int),
    {
        px >= self.x && py >= self.y && px < self.x + self.w as i32 && py < self.y + self.h as i32
    }

    /// Whether the two rectangles share an interior point.
    /// What `intersects(other)` computes without overflow: each edge sum is computed only once
    /// the comparisons before it have held.
    pub open spec fn intersects_ok(&self, other: Rect) -> bool {
        &&& other.x + other.w <= i32::MAX
        &&& self.x < other.x + other.w ==> self.x + self.w <= i32::MAX
        &&& (self.x < other.x + other.w && self.x + self.w > other.x) ==> other.y + other.h <= i32::MAX
        &&& (self.x < other.x + other.w && self.x + self.w > other.x && self.y < other.y + other.h)
            ==> self.y + self.h <= i32::MAX
    }

    pub fn intersects(&self, other: &Rect) -> (res: bool)
        requires
            self.intersects_ok(*other),
        ensures
            res == (self.x < other.x + other.w && self.x + self.w > other.x && self.y < other.y
                + other.h && self.y + self.h > other.y),
    {
        self.x < other.x + other.w as i32 && self.x + self.w as i32 > other.x && self.y < other.y
            + other.h as i32 && self.y + self.h as i32 > other.y
    }

    /// The rectangle moved in by `n` on every side; a size that would go negative is zero,
    /// and a size past `u16` keeps its low 16 bits.
    pub fn shrink(&self, n: i32) -> (res: Rect)
        requires
            i32::MIN <= self.x + n <= i32::MAX,
            i32::MIN <= self.y + n <= i32::MAX,
            i32::MIN <= 2 * n <= i32::MAX,
            i32::MIN <= self.w - 2 * n <= i32::MAX,
            i32::MIN <= self.h - 2 * n <= i32::MAX,
        ensures
            res.x == self.x + n,
            res.y == self.y + n,
            res.w == max0(self.w - 2 * n) as u16,
            res.h == max0(self.h - 2 * n) as u16,
    {
        let w = self.w as i32 - 2 * n;
        let h = self.h as i32 - 2 * n;
        Rect {
            x: self.x + n,
            y: self.y + n,
            w: #[verifier::truncate] ((if w < 0 { 0 } else { w }) as u16),
            h: #[verifier::truncate] ((if h < 0 { 0 } else { h }) as u16),
        }
    }
}

/// The pixel stored when `c` is drawn over the packed pixel `d`: each colour channel mixed by
/// `c`'s alpha, the result opaque.
pub open spec fn blend(c: Color, d: u32) -> u32 {
    pack(
        mix(channel(d, 16), c.red(), c.alpha()),
        mix(channel(d, 8), c.green(), c.alpha()),
        mix(channel(d, 0), c.blue(), c.alpha()),
        255,
    )
}

/// What drawing does to one pixel: blends `c` over it, or (solid) replaces it by `c`.
pub open spec fn ink(c: Color, solid: bool) -> spec_fn(u32) -> u32 {
    if solid {
        |d: u32| c.0
    } else {
        |d: u32| blend(c, d)
    }
}

/// Whether buffer index `i`, with rows of `stride` pixels, lies in columns `x0..x1` of rows
/// `y0..y1`.
pub open spec fn in_box(i: int, stride: int, x0: int, x1: int, y0: int, y1: int) -> bool {
    stride > 0 && y0 <= i / stride < y1 && x0 <= i % stride < x1
}

/// The buffer with `f` applied to every pixel of columns `x0..x1` of rows `y0..y1`.
pub open spec fn paint_box(
    p: Seq<u32>,
    stride: int,
    x0: int,
    x1: int,
    y0: int,
    y1: int,
    f: spec_fn(u32) -> u32,
) -> Seq<u32> {
    Seq::new(p.len(), |i: int| if in_box(i, stride, x0, x1, y0, y1) { f(p[i]) } else { p[i] })
}

/// The box painted up to row `y`, column `x`: rows `y0..y` whole and row `y` up to `x`.
pub open spec fn paint_partial(
    p: Seq<u32>,
    stride: int,
    x0: int,
    x1: int,
    y0: int,
    y: int,
    x: int,
    f: spec_fn(u32) -> u32,
) -> Seq<u32> {
    Seq::new(
        p.len(),
        |i: int|
            if in_box(i, stride, x0, x1, y0, y) || in_box(i, stride, x0, x, y, y + 1) {
                f(p[i])
            } else {
                p[i]
            },
    )
}

/// The left, right, top and bottom bounds of `r` clipped to a `width` by `height` canvas.
pub open spec fn clip_x0(r: Rect) -> int {
    max0(r.x as int)
}

pub open spec fn clip_y0(r: Rect) -> int {
    max0(r.y as int)
}

pub open spec fn clip_x1(r: Rect, width: int) -> int {
    if r.x + r.w < width { r.x + r.w } else { width }
}

pub open spec fn clip_y1(r: Rect, height: int) -> int {
    if r.y + r.h < height { r.y + r.h } else { height }
}

/// The cell `(x, y)` of a buffer with rows of `stride` pixels is at `y * stride + x`.
pub proof fn lemma_cell(stride: int, x: int, y: int)
    requires
        0 <= x < stride,
        0 <= y,
    ensures
        (y * stride + x) / stride == y,
        (y * stride + x) % stride == x,
{
    lemma_fundamental_div_mod_converse(y * stride + x, stride, y, x);
}

/// An index is determined by its row and column.
pub proof fn lemma_cell_unique(stride: int, i: int)
    requires
        stride > 0,
        0 <= i,
    ensures
        i == (i / stride) * stride + i % stride,
        0 <= i % stride < stride,
        0 <= i / stride,
{
    vstd::arithmetic::div_mod::lemma_fundamental_div_mod(i, stride);
    vstd::arithmetic::mul::lemma_mul_is_commutative(stride, i / stride);
    vstd::arithmetic::div_mod::lemma_div_pos_is_pos(i, stride);
}

/// Whether `fill_rect` can paint `r` without indexing past the buffer: both clipped far
/// edges are on the canvas side of zero, or one of the clipped ranges is empty.
pub open spec fn fill_ok(r: Rect, width: int, height: int) -> bool {
    let x0 = clip_x0(r);
    let y0 = clip_y0(r);
    let x1 = clip_x1(r, width);
    let y1 = clip_y1(r, height);
    ||| x1 >= 0 && y1 >= 0
    ||| 0 <= x1 <= x0
    ||| 0 <= y1 <= y0
}

/// Whether `fill_rect_solid` can paint `r`: its row slices run forwards and stay in the buffer.
pub open spec fn solid_ok(r: Rect, width: int, height: int) -> bool {
    let x0 = clip_x0(r);
    let y0 = clip_y0(r);
    let x1 = clip_x1(r, width);
    let y1 = clip_y1(r, height);
    ||| 0 <= y1 <= y0
    ||| y1 >= 0 && x1 >= x0
}

/// The buffer after `c` is blended over the part of `r` that lies on the canvas.
pub open spec fn fill_spec(p: Seq<u32>, stride: int, width: int, height: int, r: Rect, c: Color, solid: bool) -> Seq<u32> {
    paint_box(p, stride, clip_x0(r), clip_x1(r, width), clip_y0(r), clip_y1(r, height), ink(c, solid))
}

/// The buffer after `c` is blended over pixel `(x, y)`, if that pixel is on the canvas.
pub open spec fn put_spec(p: Seq<u32>, stride: int, width: int, height: int, x: int, y: int, c: Color) -> Seq<u32> {
    if 0 <= x < width && 0 <= y < height {
        paint_box(p, stride, x, x + 1, y, y + 1, ink(c, false))
    } else {
        p
    }
}

/// Painting an empty box changes nothing.
pub proof fn lemma_paint_empty(p: Seq<u32>, stride: int, x0: int, x1: int, y0: int, y1: int, f: spec_fn(u32) -> u32)
    requires
        x1 <= x0 || y1 <= y0,
    ensures
        paint_box(p, stride, x0, x1, y0, y1, f) == p,
{
    assert(paint_box(p, stride, x0, x1, y0, y1, f) =~= p);
}

/// Painting columns `a..b` and then `b..e` paints `a..e`.
pub proof fn lemma_paint_hsplit(p: Seq<u32>, stride: int, a: int, b: int, e: int, y0: int, y1: int, f: spec_fn(u32) -> u32)
    requires
        a <= b <= e,
    ensures
        paint_box(paint_box(p, stride, a, b, y0, y1, f), stride, b, e, y0, y1, f) == paint_box(p, stride, a, e, y0, y1, f),
{
    assert(paint_box(paint_box(p, stride, a, b, y0, y1, f), stride, b, e, y0, y1, f) =~= paint_box(p, stride, a, e, y0, y1, f));
}

/// Painting rows `a..b` and then `b..e` paints `a..e`.
pub proof fn lemma_paint_vsplit(p: Seq<u32>, stride: int, x0: int, x1: int, a: int, b: int, e: int, f: spec_fn(u32) -> u32)
    requires
        a <= b <= e,
    ensures
        paint_box(paint_box(p, stride, x0, x1, a, b, f), stride, x0, x1, b, e, f) == paint_box(p, stride, x0, x1, a, e, f),
{
    assert(paint_box(paint_box(p, stride, x0, x1, a, b, f), stride, x0, x1, b, e, f) =~= paint_box(p, stride, x0, x1, a, e, f));
}

/// `min(v, hi)`.
pub open spec fn min_int(v: int, hi: int) -> int {
    if v < hi { v } else { hi }
}

/// The buffer after `c` is blended over pixels `x0..x1` of row `y`, clipped to the canvas.
pub open spec fn hline_spec(p: Seq<u32>, stride: int, width: int, height: int, x0: int, x1: int, y: int, c: Color) -> Seq<u32> {
    if 0 <= y < height {
        paint_box(p, stride, max0(x0), min_int(x1, width), y, y + 1, ink(c, false))
    } else {
        p
    }
}

/// The buffer after `c` is blended over pixels `y0..y1` of column `x`, clipped to the canvas.
pub open spec fn vline_spec(p: Seq<u32>, stride: int, width: int, height: int, x: int, y0: int, y1: int, c: Color) -> Seq<u32> {
    if 0 <= x < width {
        paint_box(p, stride, x, x + 1, max0(y0), min_int(y1, height), ink(c, false))
    } else {
        p
    }
}

/// The colour `a` mixed towards `b` by `t / 255`, as `Color::lerp` computes it.
pub open spec fn lerp_spec(a: Color, b: Color, t: u8) -> Color {
    Color(pack(mix(a.red(), b.red(), t), mix(a.green(), b.green(), t), mix(a.blue(), b.blue(), t), mix(a.alpha(), b.alpha(), t)))
}

/// The four bands `stroke_rect` fills: top, bottom, left, right.
pub open spec fn stroke_top(r: Rect, thick: i32) -> Rect {
    Rect { x: r.x, y: r.y, w: r.w, h: thick as u16 }
}

pub open spec fn stroke_bottom(r: Rect, thick: i32) -> Rect {
    Rect { x: r.x, y: (r.y + r.h - thick) as i32, w: r.w, h: thick as u16 }
}

pub open spec fn stroke_left(r: Rect, thick: i32) -> Rect {
    Rect { x: r.x, y: r.y, w: thick as u16, h: r.h }
}

pub open spec fn stroke_right(r: Rect, thick: i32) -> Rect {
    Rect { x: (r.x + r.w - thick) as i32, y: r.y, w: thick as u16, h: r.h }
}

/// `fill_rect(r)` can run on a canvas of this size.
pub open spec fn fillable(r: Rect, width: int, height: int) -> bool {
    r.edges_fit() && fill_ok(r, width, height)
}

/// `stroke_rect(r, _, thick)` can run on a canvas of this size.
pub open spec fn stroke_ok(r: Rect, thick: i32, width: int, height: int) -> bool {
    &&& r.edges_fit()
    &&& i32::MIN <= r.y + r.h - thick
    &&& i32::MIN <= r.x + r.w - thick
    &&& r.y + r.h - thick <= i32::MAX
    &&& r.x + r.w - thick <= i32::MAX
    &&& fillable(stroke_top(r, thick), width, height)
    &&& fillable(stroke_bottom(r, thick), width, height)
    &&& fillable(stroke_left(r, thick), width, height)
    &&& fillable(stroke_right(r, thick), width, height)
}

/// The buffer after the four bands of width `thick` along `r`'s edges are blended with `c`.
pub open spec fn stroke_spec(p: Seq<u32>, stride: int, width: int, height: int, r: Rect, c: Color, thick: i32) -> Seq<u32> {
    let p1 = fill_spec(p, stride, width, height, stroke_top(r, thick), c, false);
    let p2 = fill_spec(p1, stride, width, height, stroke_bottom(r, thick), c, false);
    let p3 = fill_spec(p2, stride, width, height, stroke_left(r, thick), c, false);
    fill_spec(p3, stride, width, height, stroke_right(r, thick), c, false)
}

/// Row `dy` of `r`, one pixel high.
pub open spec fn gradient_row(r: Rect, dy: int) -> Rect {
    Rect { x: r.x, y: (r.y + dy) as i32, w: r.w, h: 1 }
}

/// The colour of row `dy` of a gradient of `h` rows from `top` to `bot`.
pub open spec fn gradient_color(top: Color, bot: Color, dy: int, h: int) -> Color {
    lerp_spec(top, bot, (dy * 255 / h) as u8)
}

/// The buffer after the first `n` rows of the vertical gradient over `r` are blended.
pub open spec fn gradient_spec(p: Seq<u32>, stride: int, width: int, height: int, r: Rect, top: Color, bot: Color, n: int) -> Seq<u32>
    decreases n,
{
    if n <= 0 {
        p
    } else {
        fill_spec(
            gradient_spec(p, stride, width, height, r, top, bot, n - 1),
            stride, width, height,
            gradient_row(r, n - 1),
            gradient_color(top, bot, n - 1, r.h as int),
            false,
        )
    }
}

/// The ring `glow_rect` strokes at distance `i` outside `r`.
pub open spec fn glow_ring(r: Rect, i: int) -> Rect {
    Rect { x: (r.x - i) as i32, y: (r.y - i) as i32, w: (r.w + 2 * i) as u16, h: (r.h + 2 * i) as u16 }
}

/// The colour of the ring at distance `i` of a glow that spreads `spread` pixels: `c` with
/// an alpha that grows towards the rectangle.
pub open spec fn glow_color(c: Color, spread: int, i: int) -> Color {
    Color(pack(c.red(), c.green(), c.blue(), ((spread - i + 1) * 30 / spread) as u8))
}

/// The buffer after the outermost `k` rings of the glow are stroked, outermost first.
pub open spec fn glow_spec(p: Seq<u32>, stride: int, width: int, height: int, r: Rect, c: Color, spread: int, k: int) -> Seq<u32>
    decreases k,
{
    if k <= 0 {
        p
    } else {
        stroke_spec(
            glow_spec(p, stride, width, height, r, c, spread, k - 1),
            stride, width, height,
            glow_ring(r, spread - k + 1),
            glow_color(c, spread, spread - k + 1),
            1,
        )
    }
}

/// Whether pixel `i` lies on the canvas inside the disk of radius `r` around `(cx, cy)`.
pub open spec fn in_disk(i: int, stride: int, width: int, height: int, cx: int, cy: int, r: int) -> bool {
    &&& stride > 0
    &&& r >= 0
    &&& i % stride < width
    &&& i / stride < height
    &&& (i % stride - cx) * (i % stride - cx) + (i / stride - cy) * (i / stride - cy) <= r * r
}

/// Whether disk pixel `i` comes before offset `(dx, dy)` in the drawing order (rows top to
/// bottom, each row left to right).
pub open spec fn disk_done(i: int, stride: int, cx: int, cy: int, dx: int, dy: int) -> bool {
    i / stride - cy < dy || (i / stride - cy == dy && i % stride - cx < dx)
}

/// The buffer with `c` blended over the disk pixels drawn before offset `(dx, dy)`.
pub open spec fn disk_partial(p: Seq<u32>, stride: int, width: int, height: int, cx: int, cy: int, r: int, dx: int, dy: int, c: Color) -> Seq<u32> {
    Seq::new(
        p.len(),
        |i: int|
            if in_disk(i, stride, width, height, cx, cy, r) && disk_done(i, stride, cx, cy, dx, dy) {
                blend(c, p[i])
            } else {
                p[i]
            },
    )
}

/// The buffer with `c` blended over every pixel of the disk.
pub open spec fn disk_spec(p: Seq<u32>, stride: int, width: int, height: int, cx: int, cy: int, r: int, c: Color) -> Seq<u32> {
    Seq::new(
        p.len(),
        |i: int| if in_disk(i, stride, width, height, cx, cy, r) { blend(c, p[i]) } else { p[i] },
    )
}

/// `fill_circle(cx, cy, radius)` computes in `i32` without overflow.
pub open spec fn circle_ok(cx: int, cy: int, radius: int) -> bool {
    &&& radius * radius <= i32::MAX
    &&& radius >= 0 ==> {
        &&& 2 * radius * radius <= i32::MAX
        &&& i32::MIN <= cx - radius && cx + radius <= i32::MAX
        &&& i32::MIN <= cy - radius && cy + radius <= i32::MAX
    }
}

pub proof fn lemma_square_nonneg(v: int)
    ensures
        v * v >= 0,
{
    assert(v * v >= 0) by (nonlinear_arith);
}

/// The pieces `rounded_rect` draws: a band inset `radius` from the left and right, a band
/// inset `radius` from the top and bottom, and a disk at each corner.
pub open spec fn round_hband(r: Rect, radius: i32) -> Rect {
    Rect { x: (r.x + radius) as i32, y: r.y, w: (r.w - 2 * (radius as u16)) as u16, h: r.h }
}

pub open spec fn round_vband(r: Rect, radius: i32) -> Rect {
    Rect { x: r.x, y: (r.y + radius) as i32, w: r.w, h: (r.h - 2 * (radius as u16)) as u16 }
}

/// `rounded_rect(r, _, radius)` can run on a canvas of this size.
pub open spec fn rounded_ok(r: Rect, radius: i32, width: int, height: int) -> bool {
    &&& r.edges_fit()
    &&& 2 * (radius as u16) <= 65535
    &&& r.w >= 2 * (radius as u16)
    &&& r.h >= 2 * (radius as u16)
    &&& i32::MIN <= r.x + radius <= i32::MAX
    &&& i32::MIN <= r.y + radius <= i32::MAX
    &&& i32::MIN <= r.x + r.w - radius <= i32::MAX
    &&& i32::MIN <= r.y + r.h - radius <= i32::MAX
    &&& fillable(round_hband(r, radius), width, height)
    &&& fillable(round_vband(r, radius), width, height)
    &&& circle_ok(r.x + radius, r.y + radius, radius as int)
    &&& circle_ok(r.x + r.w - radius, r.y + radius, radius as int)
    &&& circle_ok(r.x + radius, r.y + r.h - radius, radius as int)
    &&& circle_ok(r.x + r.w - radius, r.y + r.h - radius, radius as int)
}

/// The buffer after the two bands and the four corner disks of a rounded rectangle are blended.
pub open spec fn rounded_spec(p: Seq<u32>, stride: int, width: int, height: int, r: Rect, c: Color, radius: i32) -> Seq<u32> {
    let p1 = fill_spec(p, stride, width, height, round_hband(r, radius), c, false);
    let p2 = fill_spec(p1, stride, width, height, round_vband(r, radius), c, false);
    let p3 = disk_spec(p2, stride, width, height, r.x + radius, r.y + radius, radius as int, c);
    let p4 = disk_spec(p3, stride, width, height, r.x + r.w - radius, r.y + radius, radius as int, c);
    let p5 = disk_spec(p4, stride, width, height, r.x + radius, r.y + r.h - radius, radius as int, c);
    disk_spec(p5, stride, width, height, r.x + r.w - radius, r.y + r.h - radius, radius as int, c)
}

/// The inner bounds `blur_rect` works on: `r` shrunk by one pixel at the right and bottom,
/// and kept one pixel away from every canvas edge.
pub open spec fn blur_x0(r: Rect) -> int {
    if r.x > 1 { r.x as int } else { 1 }
}

pub open spec fn blur_y0(r: Rect) -> int {
    if r.y > 1 { r.y as int } else { 1 }
}

pub open spec fn blur_x1(r: Rect, width: int) -> int {
    min_int(r.x + r.w - 1, width - 1)
}

pub open spec fn blur_y1(r: Rect, height: int) -> int {
    min_int(r.y + r.h - 1, height - 1)
}

/// `blur_rect(r, passes)` stays inside the buffer.
pub open spec fn blur_ok(r: Rect, passes: int, width: int, height: int) -> bool {
    &&& r.edges_fit()
    &&& r.x + r.w - 1 >= i32::MIN
    &&& r.y + r.h - 1 >= i32::MIN
    &&& {
        ||| passes == 0
        ||| blur_x1(r, width) >= 0 && blur_y1(r, height) >= 0
        ||| 0 <= blur_x1(r, width) <= blur_x0(r)
        ||| 0 <= blur_y1(r, height) <= blur_y0(r)
    }
}

/// The sum of one channel over pixel `(x, y)` and its four neighbours.
pub open spec fn cross_sum(p: Seq<u32>, s: int, x: int, y: int, shift: u32) -> int {
    channel(p[y * s + x - 1], shift) + channel(p[y * s + x + 1], shift) + channel(p[(y - 1) * s + x], shift)
        + channel(p[(y + 1) * s + x], shift) + channel(p[y * s + x], shift)
}

/// The opaque average of pixel `(x, y)` and its four neighbours.
pub open spec fn blur_value(p: Seq<u32>, s: int, x: int, y: int) -> u32 {
    pack((cross_sum(p, s, x, y, 16) / 5) as u8, (cross_sum(p, s, x, y, 8) / 5) as u8, (cross_sum(p, s, x, y, 0) / 5) as u8, 255)
}

/// The buffer after the first `n` pixels of the box (row by row, each row left to right) are
/// replaced, in place, by their averages; rows are `wd` pixels wide.
pub open spec fn blur_steps(p: Seq<u32>, s: int, x0: int, y0: int, wd: int, n: int) -> Seq<u32>
    decreases n,
{
    if n <= 0 || wd <= 0 {
        p
    } else {
        let q = blur_steps(p, s, x0, y0, wd, n - 1);
        let x = x0 + (n - 1) % wd;
        let y = y0 + (n - 1) / wd;
        q.update(y * s + x, blur_value(q, s, x, y))
    }
}

/// The buffer after `k` blur passes over columns `x0..x1` of rows `y0..y1`.
pub open spec fn blur_spec(p: Seq<u32>, s: int, x0: int, x1: int, y0: int, y1: int, k: int) -> Seq<u32>
    decreases k,
{
    if k <= 0 {
        p
    } else if x1 <= x0 || y1 <= y0 {
        p
    } else {
        blur_steps(blur_spec(p, s, x0, x1, y0, y1, k - 1), s, x0, y0, x1 - x0, (x1 - x0) * (y1 - y0))
    }
}

/// A framebuffer view: `height` rows of `width` pixels, row `y` starting at `y * stride`.
pub struct Canvas {
    pub pixels: Vec<u32>,
    pub stride: usize,
    pub width: usize,
    pub height: usize,
}

impl Canvas {
    /// Rows do not overlap, sizes fit in `i32`, and every visible pixel lies in the buffer.
    pub open spec fn wf(&self) -> bool {
        &&& self.width <= self.stride
        &&& self.width <= i32::MAX
        &&& self.height <= i32::MAX
        &&& self.height > 0 ==> (self.height - 1) * self.stride + self.width <= self.pixels@.len()
    }

    /// The canvas has the same geometry as `other`.
    pub open spec fn same_shape(&self, other: &Canvas) -> bool {
        self.stride == other.stride && self.width == other.width && self.height == other.height
    }

    pub proof fn lemma_index_in_bounds(&self, x: int, y: int)
        requires
            self.wf(),
            0 <= x < self.width,
            0 <= y < self.height,
        ensures
            0 <= y * self.stride + x < self.pixels@.len(),
    {
        assert(y * self.stride <= (self.height - 1) * self.stride) by (nonlinear_arith)
            requires
                0 <= y <= self.height - 1,
                0 <= self.stride,
        ;
        assert(0 <= y * self.stride) by (nonlinear_arith)
            requires
                0 <= y,
                0 <= self.stride,
        ;
    }

    /// Blends `c` over pixel `(x, y)`; a pixel off the canvas is ignored.
    pub fn put(&mut self, x: i32, y: i32, c: Color)
        requires
            old(self).wf(),
        ensures
            final(self).wf(),
            final(self).same_shape(old(self)),
            final(self).pixels@ == put_spec(old(self).pixels@, old(self).stride as int, old(self).width as int, old(self).height as int, x as int, y as int, c),
    {
        if x < 0 || y < 0 || x as usize >= self.width || y as usize >= self.height {
            return;
        }
        self.paint_rows(x as usize, x as usize + 1, y as usize, y as usize + 1, c, false);
    }

    /// Blends `c` over the part of `r` on the canvas.
    pub fn fill_rect(&mut self, r: Rect, c: Color)
        requires
            old(self).wf(),
            r.edges_fit(),
            fill_ok(r, old(self).width as int, old(self).height as int),
        ensures
            final(self).wf(),
            final(self).same_shape(old(self)),
            final(self).pixels@ == fill_spec(old(self).pixels@, old(self).stride as int, old(self).width as int, old(self).height as int, r, c, false),
    {
        self.fill_clipped(r, c, false);
    }

    /// Stores `c` itself, unblended, over the part of `r` on the canvas.
    pub fn fill_rect_solid(&mut self, r: Rect, c: Color)
        requires
            old(self).wf(),
            r.edges_fit(),
            solid_ok(r, old(self).width as int, old(self).height as int),
        ensures
            final(self).wf(),
            final(self).same_shape(old(self)),
            final(self).pixels@ == fill_spec(old(self).pixels@, old(self).stride as int, old(self).width as int, old(self).height as int, r, c, true),
    {
        self.fill_clipped(r, c, true);
    }

    fn fill_clipped(&mut self, r: Rect, c: Color, solid: bool)
        requires
            old(self).wf(),
            r.edges_fit(),
        ensures
            final(self).wf(),
            final(self).same_shape(old(self)),
            final(self).pixels@ == fill_spec(old(self).pixels@, old(self).stride as int, old(self).width as int, old(self).height as int, r, c, solid),
    {
        let x0: i32 = if r.x > 0 { r.x } else { 0 };
        let y0: i32 = if r.y > 0 { r.y } else { 0 };
        let xe: i32 = r.x + r.w as i32;
        let ye: i32 = r.y + r.h as i32;
        let x1: i32 = if xe < self.width as i32 { xe } else { self.width as i32 };
        let y1: i32 = if ye < self.height as i32 { ye } else { self.height as i32 };
        if x1 <= x0 || y1 <= y0 {
            proof {
                lemma_paint_empty(self.pixels@, self.stride as int, x0 as int, x1 as int, y0 as int, y1 as int, ink(c, solid));
            }
            return;
        }
        self.paint_rows(x0 as usize, x1 as usize, y0 as usize, y1 as usize, c, solid);
    }

    /// Blends `c` over pixels `x0..x1` of row `y`.
    pub fn draw_hline(&mut self, x0: i32, x1: i32, y: i32, c: Color)
        requires
            old(self).wf(),
        ensures
            final(self).wf(),
            final(self).same_shape(old(self)),
            final(self).pixels@ == hline_spec(old(self).pixels@, old(self).stride as int, old(self).width as int, old(self).height as int, x0 as int, x1 as int, y as int, c),
    {
        let ghost p0 = self.pixels@;
        let ghost st = self.stride as int;
        let ghost w = self.width as int;
        let ghost h = self.height as int;
        let mut x = x0;
        proof {
            lemma_paint_empty(p0, st, max0(x0 as int), min_int(x0 as int, w), y as int, y + 1, ink(c, false));
        }
        while x < x1
            invariant
                self.wf(),
                self.same_shape(old(self)),
                st == self.stride && w == self.width && h == self.height,
                p0 == old(self).pixels@,
                x0 <= x,
                x0 < x1 ==> x <= x1,
                x0 >= x1 ==> x == x0,
                self.pixels@ == hline_spec(p0, st, w, h, x0 as int, x as int, y as int, c),
            decreases x1 - x,
        {
            let ghost before = self.pixels@;
            self.put(x, y, c);
            proof {
                if 0 <= y < h {
                    let lo = max0(x0 as int);
                    if 0 <= x < w {
                        lemma_paint_hsplit(p0, st, lo, x as int, x + 1, y as int, y + 1, ink(c, false));
                    } else if x >= w {
                        assert(min_int(x + 1, w) == min_int(x as int, w));
                    } else {
                        assert(max0(x0 as int) == 0);
                        lemma_paint_empty(p0, st, 0, min_int(x + 1, w), y as int, y + 1, ink(c, false));
                        lemma_paint_empty(p0, st, 0, min_int(x as int, w), y as int, y + 1, ink(c, false));
                    }
                }
            }
            x = x + 1;
        }
        proof {
            if x0 >= x1 {
                lemma_paint_empty(p0, st, max0(x0 as int), min_int(x1 as int, w), y as int, y + 1, ink(c, false));
            }
        }
    }

    /// Blends `c` over pixels `y0..y1` of column `x`.
    pub fn draw_vline(&mut self, x: i32, y0: i32, y1: i32, c: Color)
        requires
            old(self).wf(),
        ensures
            final(self).wf(),
            final(self).same_shape(old(self)),
            final(self).pixels@ == vline_spec(old(self).pixels@, old(self).stride as int, old(self).width as int, old(self).height as int, x as int, y0 as int, y1 as int, c),
    {
        let ghost p0 = self.pixels@;
        let ghost st = self.stride as int;
        let ghost w = self.width as int;
        let ghost h = self.height as int;
        let mut y = y0;
        proof {
            lemma_paint_empty(p0, st, x as int, x + 1, max0(y0 as int), min_int(y0 as int, h), ink(c, false));
        }
        while y < y1
            invariant
                self.wf(),
                self.same_shape(old(self)),
                st == self.stride && w == self.width && h == self.height,
                p0 == old(self).pixels@,
                y0 <= y,
                y0 < y1 ==> y <= y1,
                y0 >= y1 ==> y == y0,
                self.pixels@ == vline_spec(p0, st, w, h, x as int, y0 as int, y as int, c),
            decreases y1 - y,
        {
            self.put(x, y, c);
            proof {
                if 0 <= x < w {
                    let lo = max0(y0 as int);
                    if 0 <= y < h {
                        lemma_paint_vsplit(p0, st, x as int, x + 1, lo, y as int, y + 1, ink(c, false));
                    } else if y >= h {
                        assert(min_int(y + 1, h) == min_int(y as int, h));
                    } else {
                        lemma_paint_empty(p0, st, x as int, x + 1, 0, min_int(y + 1, h), ink(c, false));
                        lemma_paint_empty(p0, st, x as int, x + 1, 0, min_int(y as int, h), ink(c, false));
                    }
                }
            }
            y = y + 1;
        }
        proof {
            if y0 >= y1 {
                lemma_paint_empty(p0, st, x as int, x + 1, max0(y0 as int), min_int(y1 as int, h), ink(c, false));
            }
        }
    }

    /// Blends `c` over the four bands of width `thick` along the edges of `r`: top, bottom,
    /// left, right, in that order.
    pub fn stroke_rect(&mut self, r: Rect, c: Color, thick: i32)
        requires
            old(self).wf(),
            stroke_ok(r, thick, old(self).width as int, old(self).height as int),
        ensures
            final(self).wf(),
            final(self).same_shape(old(self)),
            final(self).pixels@ == stroke_spec(old(self).pixels@, old(self).stride as int, old(self).width as int, old(self).height as int, r, c, thick),
    {
        self.fill_rect(Rect { x: r.x, y: r.y, w: r.w, h: thick as u16 }, c);
        self.fill_rect(Rect { x: r.x, y: r.y + r.h as i32 - thick, w: r.w, h: thick as u16 }, c);
        self.fill_rect(Rect { x: r.x, y: r.y, w: thick as u16, h: r.h }, c);
        self.fill_rect(Rect { x: r.x + r.w as i32 - thick, y: r.y, w: thick as u16, h: r.h }, c);
    }

    /// Blends a vertical gradient from `top` to `bot` over `r`, one row at a time.
    pub fn gradient_v(&mut self, r: Rect, top: Color, bot: Color)
        requires
            old(self).wf(),
            r.edges_fit(),
            forall|dy: int| 0 <= dy < r.h ==> #[trigger] fill_ok(gradient_row(r, dy), old(self).width as int, old(self).height as int),
        ensures
            final(self).wf(),
            final(self).same_shape(old(self)),
            final(self).pixels@ == gradient_spec(old(self).pixels@, old(self).stride as int, old(self).width as int, old(self).height as int, r, top, bot, r.h as int),
    {
        let ghost p0 = self.pixels@;
        let n: i32 = r.h as i32;
        let mut dy: i32 = 0;
        while dy < n
            invariant
                self.wf(),
                self.same_shape(old(self)),
                p0 == old(self).pixels@,
                n == r.h,
                r.edges_fit(),
                0 <= dy <= n,
                forall|k: int| 0 <= k < r.h ==> #[trigger] fill_ok(gradient_row(r, k), self.width as int, self.height as int),
                self.pixels@ == gradient_spec(p0, self.stride as int, self.width as int, self.height as int, r, top, bot, dy as int),
            decreases n - dy,
        {
            let t = (dy * 255 / n) as u8;
            let c = top.lerp(bot, t);
            assert(fill_ok(gradient_row(r, dy as int), self.width as int, self.height as int));
            self.fill_rect(Rect { x: r.x, y: r.y + dy, w: r.w, h: 1 }, c);
            dy = dy + 1;
        }
    }

    /// Blends rings of `c` around `r`, from `spread` pixels out (faintest) inwards to one
    /// pixel out (strongest).
    pub fn glow_rect(&mut self, r: Rect, c: Color, spread: i32)
        requires
            old(self).wf(),
            spread <= 32767,
            r.w + 2 * spread <= 65535,
            r.h + 2 * spread <= 65535,
            spread >= 1 ==> r.x - spread >= i32::MIN && r.y - spread >= i32::MIN,
            forall|i: int| 1 <= i <= spread ==> #[trigger] stroke_ok(glow_ring(r, i), 1, old(self).width as int, old(self).height as int),
        ensures
            final(self).wf(),
            final(self).same_shape(old(self)),
            final(self).pixels@ == glow_spec(old(self).pixels@, old(self).stride as int, old(self).width as int, old(self).height as int, r, c, spread as int, if spread > 0 { spread as int } else { 0 }),
    {
        let ghost p0 = self.pixels@;
        let mut i: i32 = spread;
        while i >= 1
            invariant
                self.wf(),
                self.same_shape(old(self)),
                p0 == old(self).pixels@,
                spread <= 32767,
                r.w + 2 * spread <= 65535,
                r.h + 2 * spread <= 65535,
                spread >= 1 ==> r.x - spread >= i32::MIN && r.y - spread >= i32::MIN,
                forall|j: int| 1 <= j <= spread ==> #[trigger] stroke_ok(glow_ring(r, j), 1, self.width as int, self.height as int),
                spread >= 1 ==> 0 <= i <= spread,
                spread < 1 ==> i == spread,
                self.pixels@ == glow_spec(p0, self.stride as int, self.width as int, self.height as int, r, c, spread as int, if spread >= 1 { spread - i } else { 0 }),
            decreases i,
        {
            let alpha = ((spread - i + 1) * 30 / spread) as u8;
            let gc = Color::rgba(c.r(), c.g(), c.b(), alpha);
            let two_i: u16 = 2 * (i as u16);
            let gr = Rect { x: r.x - i, y: r.y - i, w: r.w + two_i, h: r.h + two_i };
            assert(gr == glow_ring(r, i as int));
            assert(stroke_ok(glow_ring(r, i as int), 1, self.width as int, self.height as int));
            assert(spread - (spread - i + 1) + 1 == i);
            self.stroke_rect(gr, gc, 1);
            i = i - 1;
        }
    }

    /// Blends `c` over every pixel `(cx + dx, cy + dy)` of the canvas with
    /// `dx * dx + dy * dy <= radius * radius`.
    pub fn fill_circle(&mut self, cx: i32, cy: i32, radius: i32, c: Color)
        requires
            old(self).wf(),
            circle_ok(cx as int, cy as int, radius as int),
        ensures
            final(self).wf(),
            final(self).same_shape(old(self)),
            final(self).pixels@ == disk_spec(old(self).pixels@, old(self).stride as int, old(self).width as int, old(self).height as int, cx as int, cy as int, radius as int, c),
    {
        let ghost p0 = self.pixels@;
        let ghost st = self.stride as int;
        let ghost w = self.width as int;
        let ghost h = self.height as int;
        proof {
            lemma_square_nonneg(radius as int);
        }
        let r2 = radius * radius;
        if radius < 0 {
            assert(disk_spec(p0, st, w, h, cx as int, cy as int, radius as int, c) =~= p0);
            return;
        }
        let mut dy: i32 = -radius;
        proof {
            assert(radius <= 46341) by (nonlinear_arith) requires radius * radius <= i32::MAX, radius >= 0;
            assert forall|i: int| 0 <= i < p0.len() && #[trigger] in_disk(i, st, w, h, cx as int, cy as int, radius as int)
                implies !disk_done(i, st, cx as int, cy as int, -radius as int, -radius as int) by {
                let a = i / st - cy;
                lemma_square_nonneg(i % st - cx);
                assert(a * a <= radius * radius) by (nonlinear_arith)
                    requires (i % st - cx) * (i % st - cx) + a * a <= radius * radius, (i % st - cx) * (i % st - cx) >= 0;
                assert(a >= -radius) by (nonlinear_arith) requires a * a <= radius * radius, radius >= 0;
                let b = i % st - cx;
                lemma_square_nonneg(a);
                assert(b * b <= radius * radius) by (nonlinear_arith)
                    requires b * b + a * a <= radius * radius, a * a >= 0;
                assert(b >= -radius) by (nonlinear_arith) requires b * b <= radius * radius, radius >= 0;
            }
            assert(disk_partial(p0, st, w, h, cx as int, cy as int, radius as int, -radius as int, -radius as int, c) =~= p0);
        }
        while dy <= radius
            invariant
                self.wf(),
                self.same_shape(old(self)),
                p0 == old(self).pixels@,
                st == self.stride && w == self.width && h == self.height,
                circle_ok(cx as int, cy as int, radius as int),
                radius >= 0,
                radius <= 46341,
                r2 == radius * radius,
                -radius <= dy <= radius + 1,
                self.pixels@ == disk_partial(p0, st, w, h, cx as int, cy as int, radius as int, -radius as int, dy as int, c),
            decreases radius + 1 - dy,
        {
            let mut dx: i32 = -radius;
            proof {
                assert(disk_partial(p0, st, w, h, cx as int, cy as int, radius as int, -radius as int, dy as int, c)
                    =~= disk_partial(p0, st, w, h, cx as int, cy as int, radius as int, -radius as int, dy as int, c));
            }
            while dx <= radius
                invariant
                    self.wf(),
                    self.same_shape(old(self)),
                    p0 == old(self).pixels@,
                    st == self.stride && w == self.width && h == self.height,
                    circle_ok(cx as int, cy as int, radius as int),
                    radius >= 0,
                    radius <= 46341,
                    r2 == radius * radius,
                    -radius <= dy <= radius,
                    -radius <= dx <= radius + 1,
                    self.pixels@ == disk_partial(p0, st, w, h, cx as int, cy as int, radius as int, dx as int, dy as int, c),
                decreases radius + 1 - dx,
            {
                proof {
                    assert(dx * dx <= radius * radius) by (nonlinear_arith) requires -radius <= dx <= radius;
                    assert(dy * dy <= radius * radius) by (nonlinear_arith) requires -radius <= dy <= radius;
                    lemma_square_nonneg(dx as int);
                    lemma_square_nonneg(dy as int);
                    assert(2 * radius * radius == radius * radius + radius * radius) by (nonlinear_arith);
                }
                let ghost before = self.pixels@;
                if dx * dx + dy * dy <= r2 {
                    self.put(cx + dx, cy + dy, c);
                }
                proof {
                    self.lemma_disk_step(p0, before, cx as int, cy as int, radius as int, dx as int, dy as int, c);
                }
                dx = dx + 1;
            }
            proof {
                assert forall|i: int| 0 <= i < p0.len() implies #[trigger] self.pixels@[i]
                    == disk_partial(p0, st, w, h, cx as int, cy as int, radius as int, -radius as int, dy + 1, c)[i] by {
                    if in_disk(i, st, w, h, cx as int, cy as int, radius as int) {
                        let b = i % st - cx;
                        lemma_square_nonneg(i / st - cy);
                        assert(b * b <= radius * radius) by (nonlinear_arith)
                            requires b * b + (i / st - cy) * (i / st - cy) <= radius * radius, (i / st - cy) * (i / st - cy) >= 0;
                        assert(b <= radius) by (nonlinear_arith) requires b * b <= radius * radius, radius >= 0;
                        assert(b >= -radius) by (nonlinear_arith) requires b * b <= radius * radius, radius >= 0;
                    }
                }
                assert(self.pixels@ =~= disk_partial(p0, st, w, h, cx as int, cy as int, radius as int, -radius as int, dy + 1, c));
            }
            dy = dy + 1;
        }
        proof {
            assert forall|i: int| 0 <= i < p0.len() implies #[trigger] self.pixels@[i]
                == disk_spec(p0, st, w, h, cx as int, cy as int, radius as int, c)[i] by {
                if in_disk(i, st, w, h, cx as int, cy as int, radius as int) {
                    let a = i / st - cy;
                    lemma_square_nonneg(i % st - cx);
                    assert(a * a <= radius * radius) by (nonlinear_arith)
                        requires (i % st - cx) * (i % st - cx) + a * a <= radius * radius, (i % st - cx) * (i % st - cx) >= 0;
                    assert(a <= radius) by (nonlinear_arith) requires a * a <= radius * radius, radius >= 0;
                }
            }
            assert(self.pixels@ =~= disk_spec(p0, st, w, h, cx as int, cy as int, radius as int, c));
        }
    }

    /// One step of `fill_circle`: drawing offset `(dx, dy)` (when it lies in the disk) moves
    /// the drawn part one pixel on.
    proof fn lemma_disk_step(&self, p0: Seq<u32>, before: Seq<u32>, cx: int, cy: int, r: int, dx: int, dy: int, c: Color)
        requires
            self.wf(),
            r >= 0,
            before.len() == p0.len(),
            self.pixels@.len() == p0.len(),
            before == disk_partial(p0, self.stride as int, self.width as int, self.height as int, cx, cy, r, dx, dy, c),
            dx * dx + dy * dy <= r * r ==> self.pixels@ == put_spec(before, self.stride as int, self.width as int, self.height as int, cx + dx, cy + dy, c),
            dx * dx + dy * dy > r * r ==> self.pixels@ == before,
        ensures
            self.pixels@ == disk_partial(p0, self.stride as int, self.width as int, self.height as int, cx, cy, r, dx + 1, dy, c),
    {
        let st = self.stride as int;
        let w = self.width as int;
        let h = self.height as int;
        let next = disk_partial(p0, st, w, h, cx, cy, r, dx + 1, dy, c);
        assert forall|i: int| 0 <= i < p0.len() implies #[trigger] self.pixels@[i] == next[i] by {
            if st > 0 {
                lemma_cell_unique(st, i);
                let col = i % st;
                let row = i / st;
                if row - cy == dy && col - cx == dx {
                    if dx * dx + dy * dy <= r * r && 0 <= cx + dx < w && 0 <= cy + dy < h {
                        assert(in_box(i, st, cx + dx, cx + dx + 1, cy + dy, cy + dy + 1));
                    }
                } else if dx * dx + dy * dy <= r * r && 0 <= cx + dx < w && 0 <= cy + dy < h {
                    assert(!in_box(i, st, cx + dx, cx + dx + 1, cy + dy, cy + dy + 1));
                }
            }
        }
        assert(self.pixels@ =~= next);
    }

    /// Blends `c` over a rectangle with corners rounded by `radius`: two overlapping bands
    /// and a disk at each corner.
    pub fn rounded_rect(&mut self, r: Rect, c: Color, radius: i32)
        requires
            old(self).wf(),
            rounded_ok(r, radius, old(self).width as int, old(self).height as int),
        ensures
            final(self).wf(),
            final(self).same_shape(old(self)),
            final(self).pixels@ == rounded_spec(old(self).pixels@, old(self).stride as int, old(self).width as int, old(self).height as int, r, c, radius),
    {
        let two_r: u16 = 2 * (radius as u16);
        self.fill_rect(Rect { x: r.x + radius, y: r.y, w: r.w - two_r, h: r.h }, c);
        self.fill_rect(Rect { x: r.x, y: r.y + radius, w: r.w, h: r.h - two_r }, c);
        self.fill_circle(r.x + radius, r.y + radius, radius, c);
        self.fill_circle(r.x + r.w as i32 - radius, r.y + radius, radius, c);
        self.fill_circle(r.x + radius, r.y + r.h as i32 - radius, radius, c);
        self.fill_circle(r.x + r.w as i32 - radius, r.y + r.h as i32 - radius, radius, c);
    }

    /// Runs `passes` in-place blur passes over the inside of `r`: each pixel, row by row,
    /// becomes the opaque average of itself and its four neighbours as they are at that moment.
    pub fn blur_rect(&mut self, r: Rect, passes: usize)
        requires
            old(self).wf(),
            blur_ok(r, passes as int, old(self).width as int, old(self).height as int),
        ensures
            final(self).wf(),
            final(self).same_shape(old(self)),
            final(self).pixels@ == blur_spec(old(self).pixels@, old(self).stride as int,
                blur_x0(r), blur_x1(r, old(self).width as int), blur_y0(r), blur_y1(r, old(self).height as int), passes as int),
    {
        let ghost p0 = self.pixels@;
        let ghost st = self.stride as int;
        let x0: i32 = if r.x > 1 { r.x } else { 1 };
        let y0: i32 = if r.y > 1 { r.y } else { 1 };
        let xe: i32 = r.x + r.w as i32 - 1;
        let ye: i32 = r.y + r.h as i32 - 1;
        let wl: i32 = self.width as i32 - 1;
        let hl: i32 = self.height as i32 - 1;
        let x1: i32 = if xe < wl { xe } else { wl };
        let y1: i32 = if ye < hl { ye } else { hl };
        if passes == 0 || x1 <= x0 || y1 <= y0 {
            proof {
                if passes > 0 {
                    assert(blur_spec(p0, st, x0 as int, x1 as int, y0 as int, y1 as int, passes as int) == p0);
                }
            }
            return;
        }
        let ghost wd = (x1 - x0) as int;
        let ghost ht = (y1 - y0) as int;
        let mut k: usize = 0;
        while k < passes
            invariant
                self.wf(),
                self.same_shape(old(self)),
                st == self.stride,
                p0 == old(self).pixels@,
                1 <= x0 < x1 < self.width,
                1 <= y0 < y1 < self.height,
                wd == x1 - x0,
                ht == y1 - y0,
                k <= passes,
                self.pixels@ == blur_spec(p0, st, x0 as int, x1 as int, y0 as int, y1 as int, k as int),
            decreases passes - k,
        {
            let ghost pk = self.pixels@;
            let mut y: usize = y0 as usize;
            proof {
                assert((0int) * wd == 0) by (nonlinear_arith);
            }
            while y < y1 as usize
                invariant
                    self.wf(),
                    self.same_shape(old(self)),
                    st == self.stride,
                    1 <= x0 < x1 < self.width,
                    1 <= y0 < y1 < self.height,
                    wd == x1 - x0,
                    ht == y1 - y0,
                    y0 <= y <= y1,
                    self.pixels@ == blur_steps(pk, st, x0 as int, y0 as int, wd, (y - y0) * wd),
                decreases y1 - y,
            {
                let mut x: usize = x0 as usize;
                while x < x1 as usize
                    invariant
                        self.wf(),
                        self.same_shape(old(self)),
                        st == self.stride,
                        1 <= x0 < x1 < self.width,
                        1 <= y0 < y1 < self.height,
                        wd == x1 - x0,
                        ht == y1 - y0,
                        y0 <= y < y1,
                        x0 <= x <= x1,
                        self.pixels@ == blur_steps(pk, st, x0 as int, y0 as int, wd, (y - y0) * wd + (x - x0)),
                    decreases x1 - x,
                {
                    let ghost n = (y - y0) * wd + (x - x0);
                    proof {
                        assert(0 <= (y - y0) * wd) by (nonlinear_arith) requires y >= y0, wd > 0;
                        lemma_fundamental_div_mod_converse(n, wd, (y - y0) as int, (x - x0) as int);
                        self.lemma_index_in_bounds(x - 1, y as int);
                        self.lemma_index_in_bounds(x + 1, y as int);
                        self.lemma_index_in_bounds(x as int, y - 1);
                        self.lemma_index_in_bounds(x as int, y + 1);
                        self.lemma_index_in_bounds(x as int, y as int);
                        assert((y - 1) * st == y * st - st) by (nonlinear_arith);
                        assert((y + 1) * st == y * st + st) by (nonlinear_arith);
                    }
                    let _len = self.pixels.len();
                    let s = self.stride;
                    let here = y * s + x;
                    let left = self.pixels[here - 1];
                    let right = self.pixels[here + 1];
                    let up = self.pixels[here - s];
                    let down = self.pixels[here + s];
                    let mid = self.pixels[here];
                    let rr: u32 = Color(left).r() as u32 + Color(right).r() as u32 + Color(up).r() as u32
                        + Color(down).r() as u32 + Color(mid).r() as u32;
                    let gg: u32 = Color(left).g() as u32 + Color(right).g() as u32 + Color(up).g() as u32
                        + Color(down).g() as u32 + Color(mid).g() as u32;
                    let bb: u32 = Color(left).b() as u32 + Color(right).b() as u32 + Color(up).b() as u32
                        + Color(down).b() as u32 + Color(mid).b() as u32;
                    let v = Color::rgba((rr / 5) as u8, (gg / 5) as u8, (bb / 5) as u8, 255).0;
                    assert(v == blur_value(self.pixels@, st, x as int, y as int));
                    self.pixels.set(here, v);
                    x = x + 1;
                }
                proof {
                    assert((y + 1 - y0) * wd == (y - y0) * wd + wd) by (nonlinear_arith);
                }
                y = y + 1;
            }
            proof {
                assert((y1 - y0) * wd == wd * ht) by (nonlinear_arith) requires wd == x1 - x0, ht == y1 - y0;
                assert(wd * ht == (x1 - x0) * (y1 - y0));
            }
            k = k + 1;
        }
    }

    /// Applies `ink(c, solid)` to columns `x0..x1` of rows `y0..y1`, all inside the canvas.
    fn paint_rows(&mut self, x0: usize, x1: usize, y0: usize, y1: usize, c: Color, solid: bool)
        requires
            old(self).wf(),
            x0 <= x1 <= old(self).width,
            y0 <= y1 <= old(self).height,
        ensures
            final(self).wf(),
            final(self).same_shape(old(self)),
            final(self).pixels@ == paint_box(
                old(self).pixels@,
                old(self).stride as int,
                x0 as int,
                x1 as int,
                y0 as int,
                y1 as int,
                ink(c, solid),
            ),
    {
        let ghost p0 = self.pixels@;
        let ghost f = ink(c, solid);
        let ghost st = self.stride as int;
        let mut y = y0;
        while y < y1
            invariant
                self.wf(),
                self.same_shape(old(self)),
                st == self.stride,
                f == ink(c, solid),
                p0 == old(self).pixels@,
                x0 <= x1 <= self.width,
                y0 <= y <= y1 <= self.height,
                self.pixels@ == paint_partial(p0, st, x0 as int, x1 as int, y0 as int, y as int, x0 as int, f),
            decreases y1 - y,
        {
            let mut x = x0;
            while x < x1
                invariant
                    self.wf(),
                    self.same_shape(old(self)),
                    st == self.stride,
                    f == ink(c, solid),
                    p0 == old(self).pixels@,
                    x0 <= x <= x1 <= self.width,
                    y0 <= y < y1 <= self.height,
                    self.pixels@ == paint_partial(p0, st, x0 as int, x1 as int, y0 as int, y as int, x as int, f),
                decreases x1 - x,
            {
                proof {
                    self.lemma_index_in_bounds(x as int, y as int);
                    lemma_cell(st, x as int, y as int);
                }
                let _len = self.pixels.len();
                let k = y * self.stride + x;
                let d = self.pixels[k];
                assert(d == p0[k as int]);
                let v = if solid { c.0 } else { c.alpha_blend(Color(d)).0 };
                assert(v == f(d));
                let ghost before = self.pixels@;
                self.pixels.set(k, v);
                proof {
                    let next = paint_partial(p0, st, x0 as int, x1 as int, y0 as int, y as int, x + 1, f);
                    assert forall|i: int| 0 <= i < self.pixels@.len() implies self.pixels@[i] == next[i] by {
                        if i != k {
                            lemma_cell_unique(st, i);
                            assert(self.pixels@[i] == before[i]);
                        }
                    }
                    assert(self.pixels@ =~= next);
                }
                x = x + 1;
            }
            proof {
                let next = paint_partial(p0, st, x0 as int, x1 as int, y0 as int, y + 1, x0 as int, f);
                assert forall|i: int| 0 <= i < self.pixels@.len() implies self.pixels@[i] == next[i] by {
                    if st > 0 {
                        lemma_cell_unique(st, i);
                    }
                }
                assert(self.pixels@ =~= next);
            }
            y = y + 1;
        }
        proof {
            let fin = paint_box(p0, st, x0 as int, x1 as int, y0 as int, y1 as int, f);
            assert forall|i: int| 0 <= i < self.pixels@.len() implies self.pixels@[i] == fin[i] by {
                if st > 0 {
                    lemma_cell_unique(st, i);
                }
            }
            assert(self.pixels@ =~= fin);
        }
    }
}

/// The clipped edges of `r` on a `width` by `height` canvas: left, top, right, bottom.
fn clip_edges(r: Rect, width: usize, height: usize) -> (e: (i64, i64, i64, i64))
    requires
        width <= i32::MAX,
        height <= i32::MAX,
    ensures
        e.0 == clip_x0(r) && e.1 == clip_y0(r),
        e.2 == clip_x1(r, width as int) && e.3 == clip_y1(r, height as int),
{
    let x0: i64 = if r.x > 0 { r.x as i64 } else { 0 };
    let y0: i64 = if r.y > 0 { r.y as i64 } else { 0 };
    let xe: i64 = r.x as i64 + r.w as i64;
    let ye: i64 = r.y as i64 + r.h as i64;
    let x1: i64 = if xe < width as i64 { xe } else { width as i64 };
    let y1: i64 = if ye < height as i64 { ye } else { height as i64 };
    (x0, y0, x1, y1)
}

/// Whether `r` clips well enough for `fill_rect` on a `width` by `height` canvas (`fill_ok`).
pub(crate) fn fill_fits(r: Rect, width: usize, height: usize) -> (ok: bool)
    requires
        width <= i32::MAX,
        height <= i32::MAX,
    ensures
        ok == fill_ok(r, width as int, height as int),
{
    let (x0, y0, x1, y1) = clip_edges(r, width, height);
    (x1 >= 0 && y1 >= 0) || (0 <= x1 && x1 <= x0) || (0 <= y1 && y1 <= y0)
}

/// Whether `fill_rect(r)` can run on a `width` by `height` canvas (`fillable`).
pub(crate) fn fillable_fits(r: Rect, width: usize, height: usize) -> (ok: bool)
    requires
        width <= i32::MAX,
        height <= i32::MAX,
    ensures
        ok == fillable(r, width as int, height as int),
{
    if r.x as i64 + r.w as i64 > i32::MAX as i64 || r.y as i64 + r.h as i64 > i32::MAX as i64 {
        return false;
    }
    let (x0, y0, x1, y1) = clip_edges(r, width, height);
    (x1 >= 0 && y1 >= 0) || (0 <= x1 && x1 <= x0) || (0 <= y1 && y1 <= y0)
}

/// Whether `fill_rect_solid(r)` can run on a `width` by `height` canvas (`solid_ok`).
pub(crate) fn solid_fits(r: Rect, width: usize, height: usize) -> (ok: bool)
    requires
        width <= i32::MAX,
        height <= i32::MAX,
    ensures
        ok == solid_ok(r, width as int, height as int),
{
    let (x0, y0, x1, y1) = clip_edges(r, width, height);
    (0 <= y1 && y1 <= y0) || (y1 >= 0 && x1 >= x0)
}

/// Whether `stroke_rect(r, _, thick)` can run on a `width` by `height` canvas.
pub(crate) fn stroke_fits(r: Rect, thick: i32, width: usize, height: usize) -> (ok: bool)
    requires
        width <= i32::MAX,
        height <= i32::MAX,
    ensures
        ok == stroke_ok(r, thick, width as int, height as int),
{
    let xe = r.x as i64 + r.w as i64;
    let ye = r.y as i64 + r.h as i64;
    if xe > i32::MAX as i64 || ye > i32::MAX as i64 {
        return false;
    }
    let yb = ye - thick as i64;
    let xr = xe - thick as i64;
    if yb < i32::MIN as i64 || xr < i32::MIN as i64 || yb > i32::MAX as i64 || xr > i32::MAX as i64 {
        return false;
    }
    fillable_fits(Rect { x: r.x, y: r.y, w: r.w, h: thick as u16 }, width, height)
        && fillable_fits(Rect { x: r.x, y: yb as i32, w: r.w, h: thick as u16 }, width, height)
        && fillable_fits(Rect { x: r.x, y: r.y, w: thick as u16, h: r.h }, width, height)
        && fillable_fits(Rect { x: xr as i32, y: r.y, w: thick as u16, h: r.h }, width, height)
}

/// Whether `rounded_rect(r, _, radius)` can run on a `width` by `height` canvas.
pub(crate) fn rounded_fits(r: Rect, radius: i32, width: usize, height: usize) -> (ok: bool)
    requires
        width <= i32::MAX,
        height <= i32::MAX,
    ensures
        ok == rounded_ok(r, radius, width as int, height as int),
{
    let xe = r.x as i64 + r.w as i64;
    let ye = r.y as i64 + r.h as i64;
    if xe > i32::MAX as i64 || ye > i32::MAX as i64 {
        return false;
    }
    let d: u32 = 2 * (radius as u16) as u32;
    if d > 65535 || (r.w as u32) < d || (r.h as u32) < d {
        return false;
    }
    let xl = r.x as i64 + radius as i64;
    let yt = r.y as i64 + radius as i64;
    let xr = xe - radius as i64;
    let yb = ye - radius as i64;
    if xl < i32::MIN as i64 || xl > i32::MAX as i64 || yt < i32::MIN as i64 || yt > i32::MAX as i64
        || xr < i32::MIN as i64 || xr > i32::MAX as i64 || yb < i32::MIN as i64 || yb > i32::MAX as i64 {
        return false;
    }
    let hb = Rect { x: xl as i32, y: r.y, w: (r.w as u32 - d) as u16, h: r.h };
    let vb = Rect { x: r.x, y: yt as i32, w: r.w, h: (r.h as u32 - d) as u16 };
    assert(hb == round_hband(r, radius));
    assert(vb == round_vband(r, radius));
    fillable_fits(hb, width, height) && fillable_fits(vb, width, height) && circle_fits(xl, yt, radius as i64)
        && circle_fits(xr, yt, radius as i64) && circle_fits(xl, yb, radius as i64) && circle_fits(xr, yb, radius as i64)
}

/// Whether `fill_circle(cx, cy, radius)` can run (`circle_ok`).
pub(crate) fn circle_fits(cx: i64, cy: i64, radius: i64) -> (ok: bool)
    requires
        -0x1_0000_0000 <= cx <= 0x1_0000_0000,
        -0x1_0000_0000 <= cy <= 0x1_0000_0000,
        -0x8000_0000 <= radius <= 0x8000_0000,
    ensures
        ok == circle_ok(cx as int, cy as int, radius as int),
{
    assert(0 <= radius * radius <= 0x4000_0000_0000_0000) by (nonlinear_arith)
        requires
            -0x8000_0000 <= radius <= 0x8000_0000;
    if radius * radius > i32::MAX as i64 {
        return false;
    }
    if radius < 0 {
        return true;
    }
    assert(2 * radius * radius <= 0x1_0000_0000) by (nonlinear_arith)
        requires
            radius * radius <= 0x7FFF_FFFF;
    2 * radius * radius <= i32::MAX as i64 && i32::MIN as i64 <= cx - radius && cx + radius <= i32::MAX as i64
        && i32::MIN as i64 <= cy - radius && cy + radius <= i32::MAX as i64
}

} // verus!
