//! What the compositor paints besides the wallpaper: the cursor, window frames, the top bar
//! and pixel text.
use vstd::prelude::*;
use crate::wmc::compositor::{Compositor, TITLEBAR_H, BORDER_W, SHADOW_SPREAD, TOPBAR_H};
use crate::wmc::layout::{Layout, LayoutMode, WindowSlot, slot_list, slots_len, slots_get};
use crate::wmc::surface::{
    Canvas, Rect, put_spec, disk_spec, in_box, blend, glow_spec, glow_ring, stroke_ok, rounded_ok, rounded_spec,
    gradient_spec, gradient_row, fill_ok, fill_spec, hline_spec, circle_ok, stroke_spec, solid_ok,
    fill_fits, solid_fits, stroke_fits, rounded_fits, circle_fits,
};
use crate::wmc::theme::{Color, Palette, pack};

verus! {

/// The cursor's colour at the tip.
pub open spec fn tip_color() -> Color {
    Color(0xFFF0F0FFu32)
}

/// The accent colour of the cursor's glow with alpha `a`.
pub open spec fn glow_at(a: u8) -> Color {
    Color(pack(99, 102, 241, a))
}

/// The pixels once the cursor is drawn at `(x, y)`: three tip pixels, three glow pixels
/// fading down and right, then three glow disks of radius 3, 4 and 5, fainter outward.
pub open spec fn cursor_spec(p: Seq<u32>, st: int, w: int, h: int, x: int, y: int) -> Seq<u32> {
    let p1 = put_spec(p, st, w, h, x, y, tip_color());
    let p2 = put_spec(p1, st, w, h, x + 1, y, tip_color());
    let p3 = put_spec(p2, st, w, h, x, y + 1, tip_color());
    let p4 = put_spec(p3, st, w, h, x + 2, y + 2, glow_at(180));
    let p5 = put_spec(p4, st, w, h, x + 3, y + 1, glow_at(120));
    let p6 = put_spec(p5, st, w, h, x + 1, y + 3, glow_at(80));
    let p7 = disk_spec(p6, st, w, h, x, y, 3, glow_at(54));
    let p8 = disk_spec(p7, st, w, h, x, y, 4, glow_at(36));
    disk_spec(p8, st, w, h, x, y, 5, glow_at(18))
}

/// The 5 by 7 pixel font for the printable characters from space to DEL: seven rows per
/// glyph, the leftmost column in bit 4.
pub const FONT_5X7: [[u8; 7]; 96] = [
    [0x00, 0x00, 0x00, 0x00, 0x00, 0x00, 0x00],
    [0x04, 0x04, 0x04, 0x04, 0x00, 0x04, 0x00],
    [0x0A, 0x0A, 0x00, 0x00, 0x00, 0x00, 0x00],
    [0x0A, 0x1F, 0x0A, 0x1F, 0x0A, 0x00, 0x00],
    [0x04, 0x0F, 0x14, 0x0E, 0x05, 0x1E, 0x04],
    [0x18, 0x19, 0x02, 0x04, 0x13, 0x03, 0x00],
    [0x0C, 0x12, 0x14, 0x08, 0x15, 0x12, 0x0D],
    [0x04, 0x04, 0x00, 0x00, 0x00, 0x00, 0x00],
    [0x02, 0x04, 0x08, 0x08, 0x08, 0x04, 0x02],
    [0x08, 0x04, 0x02, 0x02, 0x02, 0x04, 0x08],
    [0x00, 0x04, 0x15, 0x0E, 0x15, 0x04, 0x00],
    [0x00, 0x04, 0x04, 0x1F, 0x04, 0x04, 0x00],
    [0x00, 0x00, 0x00, 0x00, 0x06, 0x04, 0x08],
    [0x00, 0x00, 0x00, 0x1F, 0x00, 0x00, 0x00],
    [0x00, 0x00, 0x00, 0x00, 0x00, 0x06, 0x06],
    [0x01, 0x02, 0x02, 0x04, 0x08, 0x10, 0x10],
    [0x0E, 0x11, 0x13, 0x15, 0x19, 0x11, 0x0E],
    [0x04, 0x0C, 0x04, 0x04, 0x04, 0x04, 0x0E],
    [0x0E, 0x11, 0x01, 0x02, 0x04, 0x08, 0x1F],
    [0x1F, 0x02, 0x04, 0x02, 0x01, 0x11, 0x0E],
    [0x02, 0x06, 0x0A, 0x12, 0x1F, 0x02, 0x02],
    [0x1F, 0x10, 0x1E, 0x01, 0x01, 0x11, 0x0E],
    [0x06, 0x08, 0x10, 0x1E, 0x11, 0x11, 0x0E],
    [0x1F, 0x01, 0x02, 0x04, 0x08, 0x08, 0x08],
    [0x0E, 0x11, 0x11, 0x0E, 0x11, 0x11, 0x0E],
    [0x0E, 0x11, 0x11, 0x0F, 0x01, 0x02, 0x0C],
    [0x00, 0x06, 0x06, 0x00, 0x06, 0x06, 0x00],
    [0x00, 0x06, 0x06, 0x00, 0x06, 0x04, 0x08],
    [0x02, 0x04, 0x08, 0x10, 0x08, 0x04, 0x02],
    [0x00, 0x00, 0x1F, 0x00, 0x1F, 0x00, 0x00],
    [0x08, 0x04, 0x02, 0x01, 0x02, 0x04, 0x08],
    [0x0E, 0x11, 0x01, 0x02, 0x04, 0x00, 0x04],
    [0x0E, 0x11, 0x17, 0x15, 0x17, 0x10, 0x0E],
    [0x04, 0x0A, 0x11, 0x11, 0x1F, 0x11, 0x11],
    [0x1E, 0x11, 0x11, 0x1E, 0x11, 0x11, 0x1E],
    [0x0E, 0x11, 0x10, 0x10, 0x10, 0x11, 0x0E],
    [0x1C, 0x12, 0x11, 0x11, 0x11, 0x12, 0x1C],
    [0x1F, 0x10, 0x10, 0x1E, 0x10, 0x10, 0x1F],
    [0x1F, 0x10, 0x10, 0x1E, 0x10, 0x10, 0x10],
    [0x0E, 0x11, 0x10, 0x17, 0x11, 0x11, 0x0F],
    [0x11, 0x11, 0x11, 0x1F, 0x11, 0x11, 0x11],
    [0x0E, 0x04, 0x04, 0x04, 0x04, 0x04, 0x0E],
    [0x07, 0x02, 0x02, 0x02, 0x02, 0x12, 0x0C],
    [0x11, 0x12, 0x14, 0x18, 0x14, 0x12, 0x11],
    [0x10, 0x10, 0x10, 0x10, 0x10, 0x10, 0x1F],
    [0x11, 0x1B, 0x15, 0x15, 0x11, 0x11, 0x11],
    [0x11, 0x19, 0x15, 0x13, 0x11, 0x11, 0x11],
    [0x0E, 0x11, 0x11, 0x11, 0x11, 0x11, 0x0E],
    [0x1E, 0x11, 0x11, 0x1E, 0x10, 0x10, 0x10],
    [0x0E, 0x11, 0x11, 0x11, 0x15, 0x12, 0x0D],
    [0x1E, 0x11, 0x11, 0x1E, 0x14, 0x12, 0x11],
    [0x0F, 0x10, 0x10, 0x0E, 0x01, 0x01, 0x1E],
    [0x1F, 0x04, 0x04, 0x04, 0x04, 0x04, 0x04],
    [0x11, 0x11, 0x11, 0x11, 0x11, 0x11, 0x0E],
    [0x11, 0x11, 0x11, 0x11, 0x11, 0x0A, 0x04],
    [0x11, 0x11, 0x11, 0x15, 0x15, 0x15, 0x0A],
    [0x11, 0x11, 0x0A, 0x04, 0x0A, 0x11, 0x11],
    [0x11, 0x11, 0x0A, 0x04, 0x04, 0x04, 0x04],
    [0x1F, 0x01, 0x02, 0x04, 0x08, 0x10, 0x1F],
    [0x0E, 0x08, 0x08, 0x08, 0x08, 0x08, 0x0E],
    [0x10, 0x08, 0x08, 0x04, 0x02, 0x02, 0x01],
    [0x0E, 0x02, 0x02, 0x02, 0x02, 0x02, 0x0E],
    [0x04, 0x0A, 0x11, 0x00, 0x00, 0x00, 0x00],
    [0x00, 0x00, 0x00, 0x00, 0x00, 0x00, 0x1F],
    [0x08, 0x04, 0x00, 0x00, 0x00, 0x00, 0x00],
    [0x00, 0x00, 0x0E, 0x01, 0x0F, 0x11, 0x0F],
    [0x10, 0x10, 0x1E, 0x11, 0x11, 0x11, 0x1E],
    [0x00, 0x00, 0x0E, 0x10, 0x10, 0x10, 0x0E],
    [0x01, 0x01, 0x0F, 0x11, 0x11, 0x11, 0x0F],
    [0x00, 0x00, 0x0E, 0x11, 0x1F, 0x10, 0x0E],
    [0x06, 0x09, 0x08, 0x1C, 0x08, 0x08, 0x08],
    [0x00, 0x0F, 0x11, 0x11, 0x0F, 0x01, 0x0E],
    [0x10, 0x10, 0x1E, 0x11, 0x11, 0x11, 0x11],
    [0x04, 0x00, 0x04, 0x04, 0x04, 0x04, 0x04],
    [0x02, 0x00, 0x02, 0x02, 0x02, 0x12, 0x0C],
    [0x10, 0x10, 0x11, 0x12, 0x1C, 0x12, 0x11],
    [0x0C, 0x04, 0x04, 0x04, 0x04, 0x04, 0x0E],
    [0x00, 0x00, 0x1A, 0x15, 0x15, 0x15, 0x15],
    [0x00, 0x00, 0x16, 0x19, 0x11, 0x11, 0x11],
    [0x00, 0x00, 0x0E, 0x11, 0x11, 0x11, 0x0E],
    [0x00, 0x1E, 0x11, 0x11, 0x1E, 0x10, 0x10],
    [0x00, 0x0F, 0x11, 0x11, 0x0F, 0x01, 0x01],
    [0x00, 0x00, 0x16, 0x19, 0x10, 0x10, 0x10],
    [0x00, 0x00, 0x0E, 0x10, 0x0E, 0x01, 0x0E],
    [0x08, 0x08, 0x1C, 0x08, 0x08, 0x09, 0x06],
    [0x00, 0x00, 0x11, 0x11, 0x11, 0x13, 0x0D],
    [0x00, 0x00, 0x11, 0x11, 0x11, 0x0A, 0x04],
    [0x00, 0x00, 0x11, 0x15, 0x15, 0x15, 0x0A],
    [0x00, 0x00, 0x11, 0x0A, 0x04, 0x0A, 0x11],
    [0x00, 0x00, 0x11, 0x11, 0x0F, 0x01, 0x0E],
    [0x00, 0x00, 0x1F, 0x02, 0x04, 0x08, 0x1F],
    [0x06, 0x08, 0x08, 0x18, 0x08, 0x08, 0x06],
    [0x04, 0x04, 0x04, 0x00, 0x04, 0x04, 0x04],
    [0x0C, 0x02, 0x02, 0x03, 0x02, 0x02, 0x0C],
    [0x08, 0x15, 0x02, 0x00, 0x00, 0x00, 0x00],
    [0x00, 0x00, 0x00, 0x00, 0x00, 0x00, 0x00],
];

impl Compositor {
    /// Draws the cursor at the compositor's cursor position (see `cursor_spec`).
    pub fn draw_cursor(&self, c: &mut Canvas)
        requires
            old(c).wf(),
            i32::MIN + 5 <= self.cursor_x <= i32::MAX - 5,
            i32::MIN + 5 <= self.cursor_y <= i32::MAX - 5,
        ensures
            final(c).wf(),
            final(c).same_shape(old(c)),
            final(c).pixels@ == cursor_spec(
                old(c).pixels@,
                old(c).stride as int,
                old(c).width as int,
                old(c).height as int,
                self.cursor_x as int,
                self.cursor_y as int,
            ),
    {
        let x = self.cursor_x;
        let y = self.cursor_y;
        c.put(x, y, Palette::text_primary());
        c.put(x + 1, y, Palette::text_primary());
        c.put(x, y + 1, Palette::text_primary());
        c.put(x + 2, y + 2, Color::rgba(99, 102, 241, 180));
        c.put(x + 3, y + 1, Color::rgba(99, 102, 241, 120));
        c.put(x + 1, y + 3, Color::rgba(99, 102, 241, 80));
        let mut r: i32 = 3;
        while r <= 5
            invariant
                3 <= r <= 6,
                c.wf(),
                c.same_shape(old(c)),
                x == self.cursor_x,
                y == self.cursor_y,
                i32::MIN + 5 <= x <= i32::MAX - 5,
                i32::MIN + 5 <= y <= i32::MAX - 5,
                c.pixels@ == halo_spec(
                    old(c).pixels@,
                    old(c).stride as int,
                    old(c).width as int,
                    old(c).height as int,
                    x as int,
                    y as int,
                    r as int,
                ),
            decreases 6 - r,
        {
            let alpha = (6 - r) as u8 * 18;
            proof {
                assert(r * r <= 25 && 2 * r * r <= 50) by (nonlinear_arith)
                    requires
                        3 <= r <= 5;
            }
            c.fill_circle(x, y, r, Color::rgba(99, 102, 241, alpha));
            r = r + 1;
        }
        proof {
            reveal_with_fuel(halo_spec, 4);
        }
    }
}

/// The cursor's pixels and its glow disks of radius 3 up to below `r`.
pub open spec fn halo_spec(p: Seq<u32>, st: int, w: int, h: int, x: int, y: int, r: int) -> Seq<u32>
    decreases r - 3,
{
    if r <= 3 {
        let p1 = put_spec(p, st, w, h, x, y, tip_color());
        let p2 = put_spec(p1, st, w, h, x + 1, y, tip_color());
        let p3 = put_spec(p2, st, w, h, x, y + 1, tip_color());
        let p4 = put_spec(p3, st, w, h, x + 2, y + 2, glow_at(180));
        let p5 = put_spec(p4, st, w, h, x + 3, y + 1, glow_at(120));
        put_spec(p5, st, w, h, x + 1, y + 3, glow_at(80))
    } else {
        disk_spec(halo_spec(p, st, w, h, x, y, r - 1), st, w, h, x, y, r - 1, glow_at(((6 - (r - 1)) * 18) as u8))
    }
}

/// Whether bit `col` of glyph row `bits` is set, counting columns from the left (bit 4).
pub open spec fn lit(bits: u8, col: int) -> bool {
    bits & (1u8 << ((4 - col) as u8)) != 0
}

/// The glyph of character `ch`: its font entry for space to DEL, blank otherwise.
pub open spec fn glyph_of(ch: u8) -> Seq<u8> {
    if 0x20 <= ch < 0x80 {
        FONT_5X7@[ch - 0x20]@
    } else {
        seq![0u8, 0u8, 0u8, 0u8, 0u8, 0u8, 0u8]
    }
}

/// Whether buffer index `i` lies in a lit cell of glyph `g` drawn at `(x, y)`, each cell a
/// `scale` by `scale` block.
pub open spec fn glyph_covers(g: Seq<u8>, x: int, y: int, scale: int, stride: int, i: int) -> bool {
    let px = i % stride;
    let py = i / stride;
    &&& scale > 0
    &&& x <= px < x + 5 * scale
    &&& y <= py < y + 7 * scale
    &&& lit(g[(py - y) / scale], (px - x) / scale)
}

/// The pixels once character `ch` is drawn at `(x, y)` in `col` at `scale`: every pixel of
/// the canvas in a lit cell of its glyph has `col` blended over it once.
pub open spec fn char_spec(p: Seq<u32>, stride: int, width: int, height: int, x: int, y: int, ch: u8, col: Color, scale: int) -> Seq<u32> {
    Seq::new(
        p.len(),
        |i: int|
            if in_box(i, stride, 0, width, 0, height) && glyph_covers(glyph_of(ch), x, y, scale, stride, i) {
                blend(col, p[i])
            } else {
                p[i]
            },
    )
}

/// The pixels once `text` is drawn from `(x, y)`, one character every `6 * scale` pixels.
pub open spec fn text_spec(p: Seq<u32>, stride: int, width: int, height: int, x: int, y: int, text: Seq<u8>, col: Color, scale: int) -> Seq<u32>
    decreases text.len(),
{
    if text.len() == 0 {
        p
    } else {
        let q = text_spec(p, stride, width, height, x, y, text.drop_last(), col, scale);
        char_spec(q, stride, width, height, x + 6 * scale * (text.len() - 1), y, text.last(), col, scale)
    }
}

/// The pixels with `col` blended over each pixel of the canvas in the `scale` by `scale`
/// block at `(px, py)`, rows `py..py + ry` whole and row `py + ry` up to column `px + rx`.
pub open spec fn block_upto(p: Seq<u32>, stride: int, width: int, height: int, px: int, py: int, scale: int, ry: int, rx: int, col: Color) -> Seq<u32> {
    Seq::new(
        p.len(),
        |i: int|
            if in_box(i, stride, 0, width, 0, height) && (in_box(i, stride, px, px + scale, py, py + ry) || in_box(
                i,
                stride,
                px,
                px + rx,
                py + ry,
                py + ry + 1,
            )) {
                blend(col, p[i])
            } else {
                p[i]
            },
    )
}

/// Blends `col` over the `scale` by `scale` block at `(px, py)`, one pixel at a time.
fn put_block(c: &mut Canvas, px: i32, py: i32, scale: i32, col: Color)
    requires
        old(c).wf(),
        px + scale <= i32::MAX,
        py + scale <= i32::MAX,
    ensures
        final(c).wf(),
        final(c).same_shape(old(c)),
        final(c).pixels@ == block_upto(old(c).pixels@, old(c).stride as int, old(c).width as int, old(c).height as int, px as int, py as int, scale as int, if scale > 0 { scale as int } else { 0 }, 0, col),
{
    let ghost p0 = c.pixels@;
    let ghost st = c.stride as int;
    let ghost w = c.width as int;
    let ghost h = c.height as int;
    let mut sy: i32 = 0;
    while sy < scale
        invariant
            c.wf(),
            c.same_shape(old(c)),
            p0 == old(c).pixels@,
            st == c.stride as int,
            w == c.width as int,
            h == c.height as int,
            0 <= sy,
            scale > 0 ==> sy <= scale,
            py + scale <= i32::MAX,
            px + scale <= i32::MAX,
            c.pixels@ == block_upto(p0, st, w, h, px as int, py as int, scale as int, sy as int, 0, col),
        decreases scale - sy,
    {
        let mut sx: i32 = 0;
        while sx < scale
            invariant
                c.wf(),
                c.same_shape(old(c)),
                p0 == old(c).pixels@,
                st == c.stride as int,
                w == c.width as int,
                h == c.height as int,
                0 <= sy < scale,
                0 <= sx <= scale,
                py + scale <= i32::MAX,
                px + scale <= i32::MAX,
                c.pixels@ == block_upto(p0, st, w, h, px as int, py as int, scale as int, sy as int, sx as int, col),
            decreases scale - sx,
        {
            let ghost before = c.pixels@;
            c.put(px + sx, py + sy, col);
            proof {
                assert(c.pixels@ =~= block_upto(p0, st, w, h, px as int, py as int, scale as int, sy as int, sx + 1, col));
            }
            sx = sx + 1;
        }
        proof {
            assert(c.pixels@ =~= block_upto(p0, st, w, h, px as int, py as int, scale as int, sy + 1, 0, col));
        }
        sy = sy + 1;
    }
    proof {
        assert(c.pixels@ =~= block_upto(p0, st, w, h, px as int, py as int, scale as int, if scale > 0 { scale as int } else { 0 }, 0, col));
    }
}

/// Whether index `i` is in a lit cell of glyph `g` at `(x, y)` that comes before cell
/// `(r, cb)` in row order.
pub open spec fn covers_upto(g: Seq<u8>, x: int, y: int, scale: int, stride: int, i: int, r: int, cb: int) -> bool {
    &&& glyph_covers(g, x, y, scale, stride, i)
    &&& ((i / stride - y) / scale < r || (i / stride - y) / scale == r && (i % stride - x) / scale < cb)
}

/// The pixels with the lit cells before `(r, cb)` drawn.
pub open spec fn char_upto(p: Seq<u32>, stride: int, width: int, height: int, g: Seq<u8>, x: int, y: int, col: Color, scale: int, r: int, cb: int) -> Seq<u32> {
    Seq::new(
        p.len(),
        |i: int|
            if in_box(i, stride, 0, width, 0, height) && covers_upto(g, x, y, scale, stride, i, r, cb) {
                blend(col, p[i])
            } else {
                p[i]
            },
    )
}

/// `a` lies in the `q`-th block of `s` exactly when `a / s` is `q`.
proof fn lemma_cell(a: int, s: int, q: int)
    requires
        a >= 0,
        s > 0,
    ensures
        (a / s == q) <==> (q * s <= a < q * s + s),
{
    vstd::arithmetic::div_mod::lemma_fundamental_div_mod(a, s);
    assert(q * s == s * q) by (nonlinear_arith);
    if q * s <= a < q * s + s {
        vstd::arithmetic::div_mod::lemma_fundamental_div_mod_converse(a, s, q, a - q * s);
    }
    if a / s == q {
        assert(0 <= a % s < s);
    }
}

/// Draws character `ch` at `(x, y)` in `col`, each font cell a `scale` by `scale` block (see
/// `char_spec`); characters without a glyph draw nothing.
pub fn draw_char_pixel(c: &mut Canvas, x: i32, y: i32, ch: u8, col: Color, scale: i32)
    requires
        old(c).wf(),
        i32::MIN <= 7 * scale <= i32::MAX,
        i32::MIN <= x + 5 * scale <= i32::MAX,
        i32::MIN <= y + 7 * scale <= i32::MAX,
    ensures
        final(c).wf(),
        final(c).same_shape(old(c)),
        final(c).pixels@ == char_spec(old(c).pixels@, old(c).stride as int, old(c).width as int, old(c).height as int, x as int, y as int, ch, col, scale as int),
{
    let ghost p0 = c.pixels@;
    let ghost st = c.stride as int;
    let ghost w = c.width as int;
    let ghost h = c.height as int;
    let idx = ch.wrapping_sub(0x20) as usize;
    let glyph: [u8; 7] = if idx < 96 {
        FONT_5X7[idx]
    } else {
        [0u8; 7]
    };
    let ghost g = glyph@;
    proof {
        assert(g =~= glyph_of(ch));
        assert(c.pixels@ =~= char_upto(p0, st, w, h, g, x as int, y as int, col, scale as int, 0, 0)) by {
            if scale > 0 {
                assert forall|i: int| in_box(i, st, 0, w, 0, h) implies !covers_upto(g, x as int, y as int, scale as int, st, i, 0, 0) by {
                    if glyph_covers(g, x as int, y as int, scale as int, st, i) {
                        lemma_cell(i / st - y, scale as int, 0);
                    }
                }
            }
        }
    }
    let mut row: usize = 0;
    while row < 7
        invariant
            c.wf(),
            c.same_shape(old(c)),
            p0 == old(c).pixels@,
            st == c.stride as int,
            w == c.width as int,
            h == c.height as int,
            g == glyph@,
            g.len() == 7,
            row <= 7,
            i32::MIN <= 7 * scale <= i32::MAX,
            i32::MIN <= x + 5 * scale <= i32::MAX,
            i32::MIN <= y + 7 * scale <= i32::MAX,
            c.pixels@ == char_upto(p0, st, w, h, g, x as int, y as int, col, scale as int, row as int, 0),
        decreases 7 - row,
    {
        let bits = glyph[row];
        let mut col_bit: usize = 0;
        while col_bit < 5
            invariant
                c.wf(),
                c.same_shape(old(c)),
                p0 == old(c).pixels@,
                st == c.stride as int,
                w == c.width as int,
                h == c.height as int,
                g == glyph@,
                g.len() == 7,
                row < 7,
                bits == g[row as int],
                col_bit <= 5,
                i32::MIN <= 7 * scale <= i32::MAX,
                i32::MIN <= x + 5 * scale <= i32::MAX,
                i32::MIN <= y + 7 * scale <= i32::MAX,
                c.pixels@ == char_upto(p0, st, w, h, g, x as int, y as int, col, scale as int, row as int, col_bit as int),
            decreases 5 - col_bit,
        {
            let ghost before = c.pixels@;
            if bits & (1u8 << ((4 - col_bit) as u8)) != 0 {
                proof {
                    assert(i32::MIN <= col_bit * scale <= i32::MAX && i32::MIN <= x + col_bit * scale <= i32::MAX
                        && i32::MIN <= x + col_bit * scale + scale <= i32::MAX) by (nonlinear_arith)
                        requires
                            col_bit < 5,
                            i32::MIN <= 7 * scale <= i32::MAX,
                            i32::MIN <= x + 5 * scale <= i32::MAX,
                            i32::MIN <= x <= i32::MAX;
                    assert(i32::MIN <= row * scale <= i32::MAX && i32::MIN <= y + row * scale <= i32::MAX
                        && i32::MIN <= y + row * scale + scale <= i32::MAX) by (nonlinear_arith)
                        requires
                            row < 7,
                            i32::MIN <= 7 * scale <= i32::MAX,
                            i32::MIN <= y + 7 * scale <= i32::MAX,
                            i32::MIN <= y <= i32::MAX;
                }
                let px = x + col_bit as i32 * scale;
                let py = y + row as i32 * scale;
                put_block(c, px, py, scale, col);
                proof {
                    lemma_char_cell(p0, before, c.pixels@, st, w, h, g, x as int, y as int, col, scale as int, row as int, col_bit as int, true);
                }
            } else {
                proof {
                    lemma_char_cell(p0, before, c.pixels@, st, w, h, g, x as int, y as int, col, scale as int, row as int, col_bit as int, false);
                }
            }
            col_bit = col_bit + 1;
        }
        proof {
            lemma_char_row(p0, st, w, h, g, x as int, y as int, col, scale as int, row as int);
        }
        row = row + 1;
    }
    proof {
        assert(c.pixels@ =~= char_spec(p0, st, w, h, x as int, y as int, ch, col, scale as int)) by {
            let xi = x as int;
            let yi = y as int;
            let sc = scale as int;
            assert forall|i: int| in_box(i, st, 0, w, 0, h) && glyph_covers(g, xi, yi, sc, st, i)
                implies covers_upto(g, xi, yi, sc, st, i, 7, 0) by {
                let b = i / st - yi;
                lemma_cell(b, sc, b / sc);
                if b / sc >= 7 {
                    assert(7 * sc <= b) by (nonlinear_arith)
                        requires
                            b / sc >= 7,
                            (b / sc) * sc <= b,
                            sc > 0;
                }
            }
        }
    }
}

/// A row of cells done is the next row begun.
proof fn lemma_char_row(p0: Seq<u32>, st: int, w: int, h: int, g: Seq<u8>, x: int, y: int, col: Color, scale: int, r: int)
    ensures
        char_upto(p0, st, w, h, g, x, y, col, scale, r, 5) == char_upto(p0, st, w, h, g, x, y, col, scale, r + 1, 0),
{
    assert forall|i: int| in_box(i, st, 0, w, 0, h) && glyph_covers(g, x, y, scale, st, i)
        implies covers_upto(g, x, y, scale, st, i, r, 5) == covers_upto(g, x, y, scale, st, i, r + 1, 0) by {
        lemma_cell(i % st - x, scale, (i % st - x) / scale);
        if (i % st - x) / scale >= 5 {
            assert(5 * scale <= i % st - x) by (nonlinear_arith)
                requires
                    (i % st - x) / scale >= 5,
                    ((i % st - x) / scale) * scale <= i % st - x,
                    scale > 0;
        }
    }
    assert(char_upto(p0, st, w, h, g, x, y, col, scale, r, 5) =~= char_upto(p0, st, w, h, g, x, y, col, scale, r + 1, 0));
}

/// Drawing cell `(r, cb)` (its block when `lit_now`, nothing otherwise) moves the drawn
/// cells one on.
proof fn lemma_char_cell(
    p0: Seq<u32>,
    before: Seq<u32>,
    after: Seq<u32>,
    st: int,
    w: int,
    h: int,
    g: Seq<u8>,
    x: int,
    y: int,
    col: Color,
    scale: int,
    r: int,
    cb: int,
    lit_now: bool,
)
    requires
        0 <= r < 7,
        0 <= cb < 5,
        g.len() == 7,
        before == char_upto(p0, st, w, h, g, x, y, col, scale, r, cb),
        lit_now == lit(g[r], cb),
        lit_now ==> after == block_upto(before, st, w, h, x + cb * scale, y + r * scale, scale, if scale > 0 { scale } else { 0 }, 0, col),
        !lit_now ==> after == before,
    ensures
        after == char_upto(p0, st, w, h, g, x, y, col, scale, r, cb + 1),
{
    let target = char_upto(p0, st, w, h, g, x, y, col, scale, r, cb + 1);
    assert forall|i: int| 0 <= i < p0.len() implies #[trigger] after[i] == target[i] by {
        if in_box(i, st, 0, w, 0, h) && scale > 0 {
            let a = i % st - x;
            let b = i / st - y;
            if a >= 0 {
                lemma_cell(a, scale, cb);
                lemma_cell(a, scale, a / scale);
            }
            if b >= 0 {
                lemma_cell(b, scale, r);
                lemma_cell(b, scale, b / scale);
            }
            assert(0 <= cb * scale) by (nonlinear_arith)
                requires
                    0 <= cb,
                    0 < scale;
            assert(0 <= r * scale) by (nonlinear_arith)
                requires
                    0 <= r,
                    0 < scale;
            assert(cb * scale + scale <= 5 * scale) by (nonlinear_arith)
                requires
                    cb < 5,
                    0 < scale;
            assert(r * scale + scale <= 7 * scale) by (nonlinear_arith)
                requires
                    r < 7,
                    0 < scale;
        }
    }
    assert(after =~= target);
}

/// Draws `text` from `(x, y)` in `col`, one character every `6 * scale` pixels (see
/// `text_spec`).
pub fn draw_text_pixel(c: &mut Canvas, x: i32, y: i32, text: &[u8], col: Color, scale: i32)
    requires
        old(c).wf(),
        i32::MIN <= 7 * scale <= i32::MAX,
        i32::MIN <= y + 7 * scale <= i32::MAX,
        i32::MIN <= x + 6 * scale * text@.len() <= i32::MAX,
    ensures
        final(c).wf(),
        final(c).same_shape(old(c)),
        final(c).pixels@ == text_spec(old(c).pixels@, old(c).stride as int, old(c).width as int, old(c).height as int, x as int, y as int, text@, col, scale as int),
{
    let ghost p0 = c.pixels@;
    let ghost st = c.stride as int;
    let ghost w = c.width as int;
    let ghost h = c.height as int;
    let ghost n = text@.len() as int;
    let mut cx = x;
    let mut i: usize = 0;
    proof {
        assert(text@.subrange(0, 0) =~= Seq::<u8>::empty());
    }
    while i < text.len()
        invariant
            c.wf(),
            c.same_shape(old(c)),
            p0 == old(c).pixels@,
            st == c.stride as int,
            w == c.width as int,
            h == c.height as int,
            n == text@.len(),
            i <= n,
            cx == x + 6 * scale * i,
            i32::MIN <= 7 * scale <= i32::MAX,
            i32::MIN <= y + 7 * scale <= i32::MAX,
            i32::MIN <= x + 6 * scale * n <= i32::MAX,
            c.pixels@ == text_spec(p0, st, w, h, x as int, y as int, text@.subrange(0, i as int), col, scale as int),
        decreases n - i,
    {
        proof {
            assert(i32::MIN <= cx + 5 * scale <= i32::MAX && i32::MIN <= cx + 6 * scale <= i32::MAX && i32::MIN <= 6 * scale <= i32::MAX)
                by (nonlinear_arith)
                requires
                    cx == x + 6 * scale * i,
                    0 <= i < n,
                    i32::MIN <= x <= i32::MAX,
                    i32::MIN <= 7 * scale <= i32::MAX,
                    i32::MIN <= x + 6 * scale * n <= i32::MAX;
        }
        draw_char_pixel(c, cx, y, text[i], col, scale);
        proof {
            let t1 = text@.subrange(0, i + 1);
            assert(t1.drop_last() =~= text@.subrange(0, i as int));
            assert(t1.last() == text@[i as int]);
            assert(cx + 6 * scale == x + 6 * scale * (i + 1)) by (nonlinear_arith)
                requires
                    cx == x + 6 * scale * i;
        }
        cx = cx + 6 * scale;
        i = i + 1;
    }
    proof {
        assert(text@.subrange(0, n) =~= text@);
    }
}

/// The title bar of a window frame at `rect`.
pub open spec fn title_rect(rect: Rect) -> Rect {
    Rect { x: rect.x, y: rect.y, w: rect.w, h: 26 }
}

/// The width of the accent bar under a title: 30% of the frame's width, at most 60.
pub open spec fn accent_width(rect: Rect) -> int {
    let a = rect.w as int * 30 / 100;
    if a < 60 { a } else { 60 }
}

/// The accent bar under the title, moved right by `shift`.
pub open spec fn accent_bar(rect: Rect, shift: i32) -> Rect {
    Rect { x: (rect.x + 8 + shift) as i32, y: (rect.y + 24) as i32, w: accent_width(rect) as u16, h: 1 }
}

/// The content area of a frame: inside the border, below the title bar.
pub open spec fn content_rect(rect: Rect) -> Rect {
    Rect {
        x: (rect.x + 1) as i32,
        y: (rect.y + 26) as i32,
        w: (if rect.w - 2 > 0 { rect.w - 2 } else { 0 }) as u16,
        h: (if rect.h - 27 > 0 { rect.h - 27 } else { 0 }) as u16,
    }
}

/// The row of the scan line that sweeps the content of window `wid` with time.
pub open spec fn scan_row(rect: Rect, wid: u32, clock_tick: u64) -> int {
    rect.y + 26 + ((clock_tick / 2 + wid * 17) % (content_rect(rect).h as int))
}

/// Whether the cursor is over the buttons of a frame: right of them less 52 pixels, inside
/// the title bar's rows.
pub open spec fn over_buttons(rect: Rect, cx: i32, cy: i32) -> bool {
    cx > rect.x + rect.w - 52 && cy > rect.y && cy < rect.y + 26
}

/// What drawing a glow of `spread` around `r` needs.
pub open spec fn glow_ok(r: Rect, spread: int, width: int, height: int) -> bool {
    &&& spread <= 32767
    &&& r.w + 2 * spread <= 65535
    &&& r.h + 2 * spread <= 65535
    &&& spread >= 1 ==> r.x - spread >= i32::MIN && r.y - spread >= i32::MIN
    &&& forall|i: int| 1 <= i <= spread ==> #[trigger] stroke_ok(glow_ring(r, i), 1, width, height)
}

/// What drawing the frame of `rect` needs: each piece can be drawn, the arithmetic fits in
/// `i32`, and the content area has rows (the scan line's row is taken modulo its height).
pub open spec fn frame_ok(rect: Rect, focused: bool, shift: i32, width: int, height: int) -> bool {
    &&& glow_ok(rect, if focused { 8 } else { 4 }, width, height)
    &&& rounded_ok(rect, 6, width, height)
    &&& title_rect(rect).edges_fit()
    &&& forall|dy: int| 0 <= dy < 26 ==> #[trigger] fill_ok(gradient_row(title_rect(rect), dy), width, height)
    &&& i32::MIN <= rect.x + 8 + shift <= i32::MAX
    &&& rect.y + 26 <= i32::MAX
    &&& accent_bar(rect, shift).edges_fit()
    &&& fill_ok(accent_bar(rect, shift), width, height)
    &&& i32::MIN <= rect.x + rect.w - 52
    &&& circle_ok(rect.x + rect.w - 12, rect.y + 13, 5)
    &&& circle_ok(rect.x + rect.w - 28, rect.y + 13, 5)
    &&& circle_ok(rect.x + rect.w - 44, rect.y + 13, 5)
    &&& stroke_ok(rect, 1, width, height)
    &&& content_rect(rect).edges_fit()
    &&& solid_ok(content_rect(rect), width, height)
    &&& rect.h > 27
    &&& rect.y + 26 + rect.h - 27 <= i32::MAX
    &&& focused ==> glow_ok(title_rect(rect), 3, width, height)
}

/// The pixels once the frame of window `wid` is drawn at `rect`: its glow (wider and in the
/// accent colour when focused), its rounded body, the title bar's gradient with an accent
/// line on top when focused, the accent bar moved by `shift`, the three buttons (lit while
/// the cursor is over them), the border, the content area, the scan line, and a glow on the
/// title bar when focused. Nothing is drawn for an empty `rect`.
#[verifier::opaque]
pub open spec fn frame_spec(
    p: Seq<u32>,
    st: int,
    w: int,
    h: int,
    wid: u32,
    rect: Rect,
    focused: bool,
    shift: i32,
    cx: i32,
    cy: i32,
    clock_tick: u64,
) -> Seq<u32> {
    if rect.w == 0 || rect.h == 0 {
        p
    } else {
        let spread: int = if focused { 8 } else { 4 };
        let p1 = glow_spec(p, st, w, h, rect, if focused { Palette::accent() } else { Palette::shadow() }, spread, spread);
        let p2 = rounded_spec(p1, st, w, h, rect, Palette::bg_surface(), 6);
        let p3 = gradient_spec(p2, st, w, h, title_rect(rect), if focused { Palette::bg_elevated() } else { Palette::bg_surface() }, Palette::bg_surface(), 26);
        let p4 = if focused { hline_spec(p3, st, w, h, rect.x as int, rect.x + rect.w, rect.y as int, Palette::accent()) } else { p3 };
        let p5 = fill_spec(p4, st, w, h, accent_bar(rect, shift), if focused { Palette::accent() } else { Palette::text_dim() }, false);
        let hover = over_buttons(rect, cx, cy);
        let by = rect.y + 13;
        let p6 = disk_spec(p5, st, w, h, rect.x + rect.w - 12, by, 5, if hover { Palette::danger() } else { Color(pack(60, 30, 30, 220)) });
        let p7 = disk_spec(p6, st, w, h, rect.x + rect.w - 28, by, 5, if hover { Palette::warning() } else { Color(pack(40, 40, 15, 220)) });
        let p8 = disk_spec(p7, st, w, h, rect.x + rect.w - 44, by, 5, if hover { Palette::success() } else { Color(pack(15, 40, 20, 220)) });
        let p9 = stroke_spec(p8, st, w, h, rect, if focused { Palette::border_focus() } else { Palette::border() }, 1);
        let ct = content_rect(rect);
        let p10 = fill_spec(p9, st, w, h, ct, Palette::bg_deep(), true);
        let p11 = hline_spec(p10, st, w, h, ct.x as int, ct.x + ct.w, scan_row(rect, wid, clock_tick), Color(pack(99, 102, 241, 6)));
        if focused {
            glow_spec(p11, st, w, h, title_rect(rect), Palette::accent_glow(), 3, 3)
        } else {
            p11
        }
    }
}

impl Compositor {
    /// Draws the frame of window `wid` at `rect` (see `frame_spec`); `shift` moves the accent
    /// bar under the title.
    pub fn draw_window_frame(&self, c: &mut Canvas, wid: u32, rect: Rect, focused: bool, shift: i32)
        requires
            old(c).wf(),
            rect.w == 0 || rect.h == 0 || frame_ok(rect, focused, shift, old(c).width as int, old(c).height as int),
        ensures
            final(c).wf(),
            final(c).same_shape(old(c)),
            final(c).pixels@ == frame_spec(
                old(c).pixels@,
                old(c).stride as int,
                old(c).width as int,
                old(c).height as int,
                wid,
                rect,
                focused,
                shift,
                self.cursor_x,
                self.cursor_y,
                self.clock_tick,
            ),
    {
        proof {
            reveal(frame_spec);
        }
        if rect.w == 0 || rect.h == 0 {
            return;
        }
        c.glow_rect(
            rect,
            if focused { Palette::accent() } else { Palette::shadow() },
            if focused { SHADOW_SPREAD } else { SHADOW_SPREAD / 2 },
        );
        let bg = Palette::bg_surface();
        c.rounded_rect(rect, bg, 6);
        let title = Rect { x: rect.x, y: rect.y, w: rect.w, h: TITLEBAR_H as u16 };
        let tb_top = if focused { Palette::bg_elevated() } else { Palette::bg_surface() };
        let tb_bot = Palette::bg_surface();
        c.gradient_v(title, tb_top, tb_bot);
        if focused {
            c.draw_hline(rect.x, rect.x + rect.w as i32, rect.y, Palette::accent());
        }
        let a = rect.w as i32 * 30 / 100;
        let accent_bar_w = if a < 60 { a } else { 60 };
        c.fill_rect(
            Rect { x: rect.x + 8 + shift, y: rect.y + TITLEBAR_H - 2, w: accent_bar_w as u16, h: 1 },
            if focused { Palette::accent() } else { Palette::text_dim() },
        );
        let btn_y = rect.y + TITLEBAR_H / 2;
        let btn_x_close = rect.x + rect.w as i32 - 12;
        let btn_x_max = rect.x + rect.w as i32 - 28;
        let btn_x_min = rect.x + rect.w as i32 - 44;
        let hover = self.cursor_x > rect.x + rect.w as i32 - 52 && self.cursor_y > rect.y && self.cursor_y < rect.y + TITLEBAR_H;
        c.fill_circle(btn_x_close, btn_y, 5, if hover { Palette::danger() } else { Color::rgba(60, 30, 30, 220) });
        c.fill_circle(btn_x_max, btn_y, 5, if hover { Palette::warning() } else { Color::rgba(40, 40, 15, 220) });
        c.fill_circle(btn_x_min, btn_y, 5, if hover { Palette::success() } else { Color::rgba(15, 40, 20, 220) });
        c.stroke_rect(rect, if focused { Palette::border_focus() } else { Palette::border() }, BORDER_W);
        let cw = rect.w as i32 - 2 * BORDER_W;
        let ch = rect.h as i32 - TITLEBAR_H - BORDER_W;
        let content = Rect {
            x: rect.x + BORDER_W,
            y: rect.y + TITLEBAR_H,
            w: (if cw > 0 { cw } else { 0 }) as u16,
            h: (if ch > 0 { ch } else { 0 }) as u16,
        };
        c.fill_rect_solid(content, Palette::bg_deep());
        let scan_y = rect.y + TITLEBAR_H + ((self.clock_tick / 2 + wid as u64 * 17) % content.h as u64) as i32;
        c.draw_hline(content.x, content.x + content.w as i32, scan_y, Color::rgba(99, 102, 241, 6));
        if focused {
            c.glow_rect(Rect { x: rect.x, y: rect.y, w: rect.w, h: TITLEBAR_H as u16 }, Palette::accent_glow(), 3);
        }
    }
}

/// The top bar's bottom row with `col` blended at the first `n` columns, column `x` with
/// alpha `waves[x] + 30`.
pub open spec fn wave_spec(p: Seq<u32>, st: int, w: int, h: int, waves: Seq<u8>, n: int) -> Seq<u32>
    decreases n,
{
    if n <= 0 {
        p
    } else {
        put_spec(wave_spec(p, st, w, h, waves, n - 1), st, w, h, n - 1, 29, Color(pack(120, 130, 255, (waves[n - 1] + 30) as u8)))
    }
}

/// The name of the system as the top bar shows it: "Sane OS".
pub open spec fn os_name() -> Seq<u8> {
    seq![83u8, 97u8, 110u8, 101u8, 32u8, 79u8, 83u8]
}

/// The label of a layout mode: "float", "tile-h", "tile-v", "mono" or "spiral".
pub open spec fn mode_label(m: LayoutMode) -> Seq<u8> {
    match m {
        LayoutMode::Floating => seq![102u8, 108u8, 111u8, 97u8, 116u8],
        LayoutMode::TileH => seq![116u8, 105u8, 108u8, 101u8, 45u8, 104u8],
        LayoutMode::TileV => seq![116u8, 105u8, 108u8, 101u8, 45u8, 118u8],
        LayoutMode::Monocle => seq![109u8, 111u8, 110u8, 111u8],
        LayoutMode::Spiral => seq![115u8, 112u8, 105u8, 114u8, 97u8, 108u8],
    }
}

/// The clock of the top bar at tick `tick` (60 ticks a second): "HH:MM:SS", hours modulo 24.
pub open spec fn clock_text(tick: u64) -> Seq<u8> {
    let secs = tick / 60;
    let hh = (secs / 3600) % 24;
    let mm = (secs / 60) % 60;
    let ss = secs % 60;
    seq![
        (48 + hh / 10) as u8,
        (48 + hh % 10) as u8,
        58u8,
        (48 + mm / 10) as u8,
        (48 + mm % 10) as u8,
        58u8,
        (48 + ss / 10) as u8,
        (48 + ss % 10) as u8,
    ]
}

/// Whether the `i`-th window of the layout is the focused one.
pub open spec fn dot_active(l: Layout, i: int) -> bool {
    l.slots@[i] matches Some(sl) && sl.wid == l.focused
}

/// The pixels with the first `n` window dots drawn from column `x0`, ten pixels apart: a
/// larger accent dot with a halo for the focused window, a small dim dot for the others.
pub open spec fn dots_spec(p: Seq<u32>, st: int, w: int, h: int, l: Layout, x0: int, n: int) -> Seq<u32>
    decreases n,
{
    if n <= 0 {
        p
    } else {
        let q = dots_spec(p, st, w, h, l, x0, n - 1);
        let dx = x0 + (n - 1) * 10;
        let act = dot_active(l, n - 1);
        let q1 = disk_spec(q, st, w, h, dx, 15, if act { 4 } else { 2 }, if act { Palette::accent() } else { Palette::text_dim() });
        if act {
            disk_spec(q1, st, w, h, dx, 15, 4, Color(pack(99, 102, 241, 40)))
        } else {
            q1
        }
    }
}

/// The pixels once the top bar is drawn on a `screen_w` wide screen: the glass bar, its
/// bottom row lit by `waves`, the system name, the layout mode in the middle, the clock at
/// the right, and a dot for each of the first eight windows.
pub open spec fn topbar_spec(p: Seq<u32>, st: int, w: int, h: int, screen_w: u16, waves: Seq<u8>, l: Layout, tick: u64) -> Seq<u32> {
    let sw = screen_w as int;
    let p1 = fill_spec(p, st, w, h, Rect { x: 0, y: 0, w: screen_w, h: 30 }, Palette::glass(), true);
    let p2 = wave_spec(p1, st, w, h, waves, sw);
    let p3 = text_spec(p2, st, w, h, 8, 8, os_name(), Palette::text_primary(), 1);
    let lbl = mode_label(l.mode);
    let p4 = text_spec(p3, st, w, h, sw / 2 - lbl.len() * 4, 9, lbl, Palette::accent(), 1);
    let p5 = text_spec(p4, st, w, h, sw - 72, 9, clock_text(tick), Palette::text_muted(), 1);
    let n = if (l.count as u8) < 8 { (l.count as u8) as int } else { 8 };
    dots_spec(p5, st, w, h, l, sw - 110, n)
}

/// The bytes of `mode_label(m)`.
fn mode_label_bytes(m: LayoutMode) -> (v: Vec<u8>)
    ensures
        v@ == mode_label(m),
{
    match m {
        LayoutMode::Floating => vec![102u8, 108u8, 111u8, 97u8, 116u8],
        LayoutMode::TileH => vec![116u8, 105u8, 108u8, 101u8, 45u8, 104u8],
        LayoutMode::TileV => vec![116u8, 105u8, 108u8, 101u8, 45u8, 118u8],
        LayoutMode::Monocle => vec![109u8, 111u8, 110u8, 111u8],
        LayoutMode::Spiral => vec![115u8, 112u8, 105u8, 114u8, 97u8, 108u8],
    }
}

impl Compositor {
    /// Draws the top bar (see `topbar_spec`); `waves` holds, for each column, the alpha the
    /// bar's bottom row gets there less 30.
    pub fn draw_topbar(&self, c: &mut Canvas, waves: &[u8])
        requires
            old(c).wf(),
            self.layout.wf(),
            waves@.len() >= self.screen_w,
            forall|i: int| 0 <= i < self.screen_w ==> #[trigger] waves@[i] <= 225,
        ensures
            final(c).wf(),
            final(c).same_shape(old(c)),
            final(c).pixels@ == topbar_spec(
                old(c).pixels@,
                old(c).stride as int,
                old(c).width as int,
                old(c).height as int,
                self.screen_w,
                waves@,
                self.layout,
                self.clock_tick,
            ),
    {
        let ghost p0 = c.pixels@;
        let ghost st = c.stride as int;
        let ghost cw = c.width as int;
        let ghost chh = c.height as int;
        let w = self.screen_w as i32;
        let bar = Rect { x: 0, y: 0, w: self.screen_w, h: TOPBAR_H as u16 };
        c.fill_rect_solid(bar, Palette::glass());
        let ghost p1 = c.pixels@;
        let mut x: i32 = 0;
        while x < w
            invariant
                c.wf(),
                c.same_shape(old(c)),
                st == c.stride as int,
                cw == c.width as int,
                chh == c.height as int,
                w == self.screen_w as i32,
                0 <= x <= w,
                waves@.len() >= self.screen_w,
                forall|i: int| 0 <= i < self.screen_w ==> #[trigger] waves@[i] <= 225,
                c.pixels@ == wave_spec(p1, st, cw, chh, waves@, x as int),
            decreases w - x,
        {
            let alpha = waves[x as usize];
            c.put(x, TOPBAR_H - 1, Color::rgba(120, 130, 255, alpha + 30));
            x = x + 1;
        }
        let name: Vec<u8> = vec![83u8, 97u8, 110u8, 101u8, 32u8, 79u8, 83u8];
        proof {
            assert(name@ =~= os_name());
        }
        draw_text_pixel(c, 8, 8, name.as_slice(), Palette::text_primary(), 1);
        let mode_str = mode_label_bytes(self.layout.mode);
        let tx = w / 2 - mode_str.len() as i32 * 4;
        draw_text_pixel(c, tx, 9, mode_str.as_slice(), Palette::accent(), 1);
        let seconds = self.clock_tick / 60;
        let hh = (seconds / 3600) % 24;
        let mm = (seconds / 60) % 60;
        let ss = seconds % 60;
        let time_buf: [u8; 8] = [
            48u8 + (hh / 10) as u8,
            48u8 + (hh % 10) as u8,
            58u8,
            48u8 + (mm / 10) as u8,
            48u8 + (mm % 10) as u8,
            58u8,
            48u8 + (ss / 10) as u8,
            48u8 + (ss % 10) as u8,
        ];
        proof {
            assert(time_buf@ =~= clock_text(self.clock_tick));
        }
        draw_text_pixel(c, w - 72, 9, time_buf.as_slice(), Palette::text_muted(), 1);
        let win_count = self.layout.count as u8;
        let dot_x_start = w - 110;
        let n: u8 = if win_count < 8 { win_count } else { 8 };
        let ghost p5 = c.pixels@;
        let mut i: u8 = 0;
        while i < n
            invariant
                c.wf(),
                c.same_shape(old(c)),
                st == c.stride as int,
                cw == c.width as int,
                chh == c.height as int,
                self.layout.wf(),
                n <= 8,
                i <= n,
                dot_x_start == w - 110,
                w == self.screen_w as i32,
                c.pixels@ == dots_spec(p5, st, cw, chh, self.layout, dot_x_start as int, i as int),
            decreases n - i,
        {
            let dx = dot_x_start + i as i32 * 10;
            let active = match self.layout.slots[i as usize] {
                Some(sl) => sl.wid == self.layout.focused,
                None => false,
            };
            let col = if active { Palette::accent() } else { Palette::text_dim() };
            c.fill_circle(dx, 15, if active { 4 } else { 2 }, col);
            if active {
                c.fill_circle(dx, 15, 4, Color::rgba(99, 102, 241, 40));
            }
            i = i + 1;
        }
    }
}

/// Where the `i`-th star of the wallpaper sits at noise phase `t` on a `w` by `h` canvas:
/// scattered across the canvas below the top bar.
pub open spec fn star_at(i: int, t: int, w: int, h: int) -> (int, int) {
    ((i * 7919 + t * 1234) % w, (i * 6271 + t * 4321) % (h - 30) + 30)
}

/// The pixels with the first `n` stars of noise phase `t` blended in, star `i` with alpha
/// `(i mod 3 + 1) * 20`.
pub open spec fn stars_spec(p: Seq<u32>, st: int, w: int, h: int, t: int, n: int) -> Seq<u32>
    decreases n,
{
    if n <= 0 {
        p
    } else {
        let (x, y) = star_at(n - 1, t, w, h);
        put_spec(stars_spec(p, st, w, h, t, n - 1), st, w, h, x, y, Color(pack(160, 170, 255, (((n - 1) % 3 + 1) * 20) as u8)))
    }
}

impl Compositor {
    /// Sprinkles the wallpaper's 200 faint stars, which move with the clock (see
    /// `stars_spec`, with phase `clock_tick mod 120`).
    pub fn draw_stars(&self, c: &mut Canvas)
        requires
            old(c).wf(),
            old(c).width > 0,
            old(c).height > 30,
        ensures
            final(c).wf(),
            final(c).same_shape(old(c)),
            final(c).pixels@ == stars_spec(old(c).pixels@, old(c).stride as int, old(c).width as int, old(c).height as int, (self.clock_tick % 120) as int, 200),
    {
        let ghost p0 = c.pixels@;
        let noise_t = self.clock_tick % 120;
        let mut i: u32 = 0;
        while i < 200
            invariant
                c.wf(),
                c.same_shape(old(c)),
                p0 == old(c).pixels@,
                c.width > 0,
                c.height > 30,
                noise_t == self.clock_tick % 120,
                i <= 200,
                c.pixels@ == stars_spec(p0, c.stride as int, c.width as int, c.height as int, noise_t as int, i as int),
            decreases 200 - i,
        {
            let px = ((i * 7919 + noise_t as u32 * 1234) % c.width as u32) as i32;
            let py = ((i * 6271 + noise_t as u32 * 4321) % (c.height as u32 - 30)) as i32 + 30;
            let alpha = (i % 3 + 1) as u8 * 20;
            c.put(px, py, Color::rgba(160, 170, 255, alpha));
            i = i + 1;
        }
    }
}

/// Whether the frame of window `s` can be drawn on a `width` by `height` canvas (see
/// `frame_ok`); an empty rectangle draws nothing.
#[verifier::opaque]
pub open spec fn window_drawable(s: WindowSlot, focused: u32, shift: i32, width: int, height: int) -> bool {
    s.rect.w == 0 || s.rect.h == 0 || frame_ok(s.rect, s.wid == focused, shift, width, height)
}

/// Whether `order` holds the windows `ws`, bottom-most (lowest stacking value) first.
pub open spec fn drawing_order(order: Seq<WindowSlot>, ws: Seq<WindowSlot>) -> bool {
    &&& order.to_multiset() == ws.to_multiset()
    &&& forall|i: int, j: int| 0 <= i < j < order.len() ==> order[i].z <= order[j].z
}

/// The pixels once the frames of the first `n` windows of `order` are drawn, one after the
/// other.
pub open spec fn frames_spec(
    p: Seq<u32>,
    st: int,
    w: int,
    h: int,
    order: Seq<WindowSlot>,
    n: int,
    focused: u32,
    shift: i32,
    cx: i32,
    cy: i32,
    clock_tick: u64,
) -> Seq<u32>
    decreases n,
{
    if n <= 0 {
        p
    } else {
        let s = order[n - 1];
        frame_spec(frames_spec(p, st, w, h, order, n - 1, focused, shift, cx, cy, clock_tick), st, w, h, s.wid, s.rect, s.wid == focused, shift, cx, cy, clock_tick)
    }
}

/// The pixels of a whole frame of the screen drawn over `p`, with the windows drawn in
/// `order`: the wallpaper's stars, the top bar, the window frames, the cursor.
pub open spec fn scene_spec(p: Seq<u32>, st: int, w: int, h: int, comp: Compositor, waves: Seq<u8>, order: Seq<WindowSlot>, shift: i32) -> Seq<u32> {
    let p1 = stars_spec(p, st, w, h, (comp.clock_tick % 120) as int, 200);
    let p2 = topbar_spec(p1, st, w, h, comp.screen_w, waves, comp.layout, comp.clock_tick);
    let p3 = frames_spec(p2, st, w, h, order, order.len() as int, comp.layout.focused, shift, comp.cursor_x, comp.cursor_y, comp.clock_tick);
    cursor_spec(p3, st, w, h, comp.cursor_x as int, comp.cursor_y as int)
}

/// An element of a sequence is in every sequence with the same elements.
proof fn lemma_same_members(order: Seq<WindowSlot>, ws: Seq<WindowSlot>, i: int) -> (k: int)
    requires
        order.to_multiset() == ws.to_multiset(),
        0 <= i < order.len(),
    ensures
        0 <= k < ws.len(),
        ws[k] == order[i],
{
    order.to_multiset_ensures();
    ws.to_multiset_ensures();
    assert(order.to_multiset().count(order[i]) > 0);
    assert(ws.to_multiset().count(order[i]) > 0);
    choose|k: int| 0 <= k < ws.len() && ws[k] == order[i]
}

impl Compositor {
    /// Draws a frame of the screen over the wallpaper's gradient already in `c` (see
    /// `scene_spec`): the windows go from the bottom-most up, in the order `sorted_slots`
    /// gives (windows with equal stacking values in no set order). `waves` is as for
    /// `draw_topbar` and `shift` as for `draw_window_frame`.
    pub fn render(&self, c: &mut Canvas, waves: &[u8], shift: i32)
        requires
            old(c).wf(),
            old(c).width > 0,
            old(c).height > 30,
            self.layout.wf(),
            waves@.len() >= self.screen_w,
            forall|i: int| 0 <= i < self.screen_w ==> #[trigger] waves@[i] <= 225,
            forall|j: int| 0 <= j < self.layout.count ==> #[trigger] window_drawable(
                self.layout.windows()[j],
                self.layout.focused,
                shift,
                old(c).width as int,
                old(c).height as int,
            ),
            i32::MIN + 5 <= self.cursor_x <= i32::MAX - 5,
            i32::MIN + 5 <= self.cursor_y <= i32::MAX - 5,
        ensures
            final(c).wf(),
            final(c).same_shape(old(c)),
            exists|order: Seq<WindowSlot>| #![trigger drawing_order(order, self.layout.windows())]
                drawing_order(order, self.layout.windows()) && final(c).pixels@ == scene_spec(
                    old(c).pixels@,
                    old(c).stride as int,
                    old(c).width as int,
                    old(c).height as int,
                    *self,
                    waves@,
                    order,
                    shift,
                ),
    {
        let ghost p0 = c.pixels@;
        let ghost st = c.stride as int;
        let ghost cw = c.width as int;
        let ghost chh = c.height as int;
        let ghost ws = self.layout.windows();
        self.draw_stars(c);
        self.draw_topbar(c, waves);
        let ghost p2 = c.pixels@;
        let slots = self.layout.sorted_slots();
        let ghost order = slot_list(slots);
        let n = slots_len(&slots);
        let mut i: usize = 0;
        while i < n
            invariant
                c.wf(),
                c.same_shape(old(c)),
                st == c.stride as int,
                cw == c.width as int,
                chh == c.height as int,
                self.layout.wf(),
                ws == self.layout.windows(),
                order == slot_list(slots),
                n == order.len(),
                order.to_multiset() == ws.to_multiset(),
                forall|j: int| 0 <= j < self.layout.count ==> #[trigger] window_drawable(ws[j], self.layout.focused, shift, cw, chh),
                i <= n,
                c.pixels@ == frames_spec(p2, st, cw, chh, order, i as int, self.layout.focused, shift, self.cursor_x, self.cursor_y, self.clock_tick),
            decreases n - i,
        {
            let s = slots_get(&slots, i);
            proof {
                let k = lemma_same_members(order, ws, i as int);
                assert(window_drawable(ws[k], self.layout.focused, shift, cw, chh));
                reveal(window_drawable);
            }
            self.draw_window_frame(c, s.wid, s.rect, s.wid == self.layout.focused, shift);
            i = i + 1;
        }
        self.draw_cursor(c);
        proof {
            assert(drawing_order(order, ws));
        }
    }
}

/// Whether a glow of `spread` around `r` can be drawn (`glow_ok`).
fn glow_fits(r: Rect, spread: i32, width: usize, height: usize) -> (ok: bool)
    requires
        0 <= spread <= 8,
        width <= i32::MAX,
        height <= i32::MAX,
    ensures
        ok == glow_ok(r, spread as int, width as int, height as int),
{
    if r.w as i32 + 2 * spread > 65535 || r.h as i32 + 2 * spread > 65535 {
        return false;
    }
    if spread >= 1 && (r.x as i64 - spread as i64) < i32::MIN as i64 || spread >= 1 && (r.y as i64 - spread as i64) < i32::MIN as i64 {
        return false;
    }
    let mut i: i32 = 1;
    while i <= spread
        invariant
            1 <= i <= spread + 1,
            spread <= 8,
            width <= i32::MAX,
            height <= i32::MAX,
            spread >= 1 ==> r.x - spread >= i32::MIN && r.y - spread >= i32::MIN,
            r.w + 2 * spread <= 65535,
            r.h + 2 * spread <= 65535,
            forall|j: int| 1 <= j < i ==> #[trigger] stroke_ok(glow_ring(r, j), 1, width as int, height as int),
        decreases spread + 1 - i,
    {
        let ring = Rect {
            x: (r.x as i64 - i as i64) as i32,
            y: (r.y as i64 - i as i64) as i32,
            w: (r.w as i32 + 2 * i) as u16,
            h: (r.h as i32 + 2 * i) as u16,
        };
        assert(ring == glow_ring(r, i as int));
        if !stroke_fits(ring, 1, width, height) {
            return false;
        }
        i = i + 1;
    }
    true
}

/// Whether the frame of `rect` can be drawn on a `width` by `height` canvas (`frame_ok`).
fn frame_fits(rect: Rect, focused: bool, shift: i32, width: usize, height: usize) -> (ok: bool)
    requires
        width <= i32::MAX,
        height <= i32::MAX,
    ensures
        ok == frame_ok(rect, focused, shift, width as int, height as int),
{
    if !glow_fits(rect, if focused { 8 } else { 4 }, width, height) || !rounded_fits(rect, 6, width, height) {
        return false;
    }
    let x = rect.x as i64;
    let y = rect.y as i64;
    let w = rect.w as i64;
    let h = rect.h as i64;
    if x + w > i32::MAX as i64 || y + 26 > i32::MAX as i64 {
        return false;
    }
    let mut dy: i32 = 0;
    while dy < 26
        invariant
            0 <= dy <= 26,
            width <= i32::MAX,
            height <= i32::MAX,
            rect.y + 26 <= i32::MAX,
            forall|j: int| 0 <= j < dy ==> #[trigger] fill_ok(gradient_row(title_rect(rect), j), width as int, height as int),
        decreases 26 - dy,
    {
        let row = Rect { x: rect.x, y: (rect.y as i64 + dy as i64) as i32, w: rect.w, h: 1 };
        assert(row == gradient_row(title_rect(rect), dy as int));
        if !fill_fits(row, width, height) {
            return false;
        }
        dy = dy + 1;
    }
    let ax = x + 8 + shift as i64;
    if ax < i32::MIN as i64 || ax > i32::MAX as i64 {
        return false;
    }
    let a = w * 30 / 100;
    let aw: i64 = if a < 60 { a } else { 60 };
    let bar = Rect { x: ax as i32, y: (y + 24) as i32, w: aw as u16, h: 1 };
    assert(bar == accent_bar(rect, shift));
    if ax + aw > i32::MAX as i64 || y + 25 > i32::MAX as i64 || !fill_fits(bar, width, height) {
        return false;
    }
    if x + w - 52 < i32::MIN as i64 || !circle_fits(x + w - 12, y + 13, 5) || !circle_fits(x + w - 28, y + 13, 5)
        || !circle_fits(x + w - 44, y + 13, 5) || !stroke_fits(rect, 1, width, height) {
        return false;
    }
    let cw: i64 = if w - 2 > 0 { w - 2 } else { 0 };
    let chh: i64 = if h - 27 > 0 { h - 27 } else { 0 };
    let content = Rect { x: (x + 1) as i32, y: (y + 26) as i32, w: cw as u16, h: chh as u16 };
    assert(content == content_rect(rect));
    let cx = content.x as i64;
    let cy = content.y as i64;
    if cx + content.w as i64 > i32::MAX as i64 || cy + content.h as i64 > i32::MAX as i64 || !solid_fits(content, width, height) {
        return false;
    }
    if h <= 27 || y + 26 + h - 27 > i32::MAX as i64 {
        return false;
    }
    !focused || glow_fits(Rect { x: rect.x, y: rect.y, w: rect.w, h: 26 }, 3, width, height)
}

/// Whether the frame of window `s` can be drawn on a `width` by `height` canvas, with window
/// `focused` focused (see `window_drawable`): what `render` needs of every window.
pub fn window_fits(s: WindowSlot, focused: u32, shift: i32, width: usize, height: usize) -> (ok: bool)
    requires
        width <= i32::MAX,
        height <= i32::MAX,
    ensures
        ok == window_drawable(s, focused, shift, width as int, height as int),
{
    proof {
        reveal(window_drawable);
    }
    s.rect.w == 0 || s.rect.h == 0 || frame_fits(s.rect, s.wid == focused, shift, width, height)
}

} // verus!
