use vstd::prelude::*;
use crate::wmc::surface::Rect;
use arrayvec::ArrayVec;

verus! {

#[derive(Clone, Copy, Debug, PartialEq, Eq, Structural)]
pub enum LayoutMode {
    Floating,
    TileH,
    TileV,
    Monocle,
    Spiral,
}

#[derive(Clone, Copy, Debug)]
pub struct WindowSlot {
    pub wid: u32,
    pub rect: Rect,
    pub z: u8,
    pub pinned: bool,
}

/// The number of windows a layout holds.
pub const MAX_WINDOWS: usize = 32;

/// The mode that follows `m` in the cycle Floating, TileH, TileV, Monocle, Spiral.
pub open spec fn next_mode(m: LayoutMode) -> LayoutMode {
    match m {
        LayoutMode::Floating => LayoutMode::TileH,
        LayoutMode::TileH => LayoutMode::TileV,
        LayoutMode::TileV => LayoutMode::Monocle,
        LayoutMode::Monocle => LayoutMode::Spiral,
        LayoutMode::Spiral => LayoutMode::Floating,
    }
}

/// The part of the screen still free before the `i`-th window of a spiral is placed: each
/// window takes the left half (even steps) or the top half (odd steps) of what is left.
pub open spec fn spiral_region(s: Rect, i: nat) -> Rect
    decreases i,
{
    if i == 0 {
        s
    } else {
        let r = spiral_region(s, (i - 1) as nat);
        if (i - 1) % 2 == 0 {
            Rect { x: (r.x + r.w / 2) as i32, y: r.y, w: (r.w - r.w / 2) as u16, h: r.h }
        } else {
            Rect { x: r.x, y: (r.y + r.h / 2) as i32, w: r.w, h: (r.h - r.h / 2) as u16 }
        }
    }
}

/// The rectangle of the `i`-th of `n` windows in a spiral: the last takes all that is left.
pub open spec fn spiral_rect(s: Rect, i: nat, n: nat) -> Rect {
    let r = spiral_region(s, i);
    if i + 1 == n {
        r
    } else if i % 2 == 0 {
        Rect { x: r.x, y: r.y, w: r.w / 2, h: r.h }
    } else {
        Rect { x: r.x, y: r.y, w: r.w, h: r.h / 2 }
    }
}

/// The rectangle of the `i`-th of `n` windows in a tiling mode.
pub open spec fn tile_rect(mode: LayoutMode, s: Rect, i: nat, n: nat) -> Rect {
    match mode {
        LayoutMode::TileH => Rect { x: (s.x + i * ((s.w as int) / (n as int))) as i32, y: s.y, w: ((s.w as int) / (n as int)) as u16, h: s.h },
        LayoutMode::TileV => Rect { x: s.x, y: (s.y + i * ((s.h as int) / (n as int))) as i32, w: s.w, h: ((s.h as int) / (n as int)) as u16 },
        LayoutMode::Monocle => s,
        LayoutMode::Spiral => spiral_rect(s, i, n),
        LayoutMode::Floating => s,
    }
}

/// Whether step `k` of a spiral, from the free part `r`, stays in `i32`: even steps move the
/// left edge right by half the width, odd steps move the top edge down by half the height.
pub open spec fn spiral_step_fits(r: Rect, k: int) -> bool {
    if k % 2 == 0 { r.x + r.w / 2 <= i32::MAX } else { r.y + r.h / 2 <= i32::MAX }
}

/// Whether retiling `n` windows in `mode` over `s` stays in `i32`: tiling side by side needs
/// the last window's left edge to fit, tiling one above the other its top edge, a spiral
/// each step but the last; floating and monocle layouts, and an empty one, compute nothing.
pub open spec fn retile_ok(mode: LayoutMode, s: Rect, n: int) -> bool {
    n <= 0 || match mode {
        LayoutMode::TileH => s.x + (n - 1) * ((s.w as int) / n) <= i32::MAX,
        LayoutMode::TileV => s.y + (n - 1) * ((s.h as int) / n) <= i32::MAX,
        LayoutMode::Spiral => forall|k: int| 0 <= k < n - 1 ==> #[trigger] spiral_step_fits(spiral_region(s, k as nat), k),
        _ => true,
    }
}

/// The windows after retiling: floating windows keep their rectangles, tiled ones get the
/// rectangle of their position.
pub open spec fn retiled(ws: Seq<WindowSlot>, mode: LayoutMode, s: Rect) -> Seq<WindowSlot> {
    if mode == LayoutMode::Floating {
        ws
    } else {
        Seq::new(
            ws.len(),
            |i: int| WindowSlot { rect: tile_rect(mode, s, i as nat, ws.len()), ..ws[i] },
        )
    }
}

/// The highest stacking value among the windows, 0 when there is none.
pub open spec fn max_z(ws: Seq<WindowSlot>) -> u8
    decreases ws.len(),
{
    if ws.len() == 0 {
        0
    } else {
        let m = max_z(ws.drop_last());
        if ws.last().z > m { ws.last().z } else { m }
    }
}

/// The windows after `wid` is raised: every window with that id gets a stacking value one
/// above the highest.
pub open spec fn raised(ws: Seq<WindowSlot>, wid: u32) -> Seq<WindowSlot> {
    Seq::new(
        ws.len(),
        |i: int| if ws[i].wid == wid { WindowSlot { z: (max_z(ws) + 1) as u8, ..ws[i] } } else { ws[i] },
    )
}

/// The first position of a window with id `wid`, if any.
pub open spec fn position_of(ws: Seq<WindowSlot>, wid: u32) -> Option<int>
    decreases ws.len(),
{
    if ws.len() == 0 {
        None
    } else {
        match position_of(ws.drop_last(), wid) {
            Some(i) => Some(i),
            None => if ws.last().wid == wid { Some(ws.len() - 1) } else { None },
        }
    }
}

/// The scan of `slot_at` over the first `k` windows: the best stacking value so far and the
/// window that has it; a later window wins a tie.
pub open spec fn hit_scan(ws: Seq<WindowSlot>, px: int, py: int, k: nat) -> (u8, Option<u32>)
    decreases k,
{
    if k == 0 {
        (0, None)
    } else {
        let (bz, bw) = hit_scan(ws, px, py, (k - 1) as nat);
        let s = ws[k - 1];
        if s.rect.spec_contains(px, py) && s.z >= bz {
            (s.z, Some(s.wid))
        } else {
            (bz, bw)
        }
    }
}

/// The position `position_of` finds holds a window with that id.
pub proof fn lemma_position_of_found(ws: Seq<WindowSlot>, wid: u32)
    ensures
        position_of(ws, wid) matches Some(k) ==> 0 <= k < ws.len() && ws[k].wid == wid,
    decreases ws.len(),
{
    if ws.len() > 0 {
        lemma_position_of_found(ws.drop_last(), wid);
        if let Some(k) = position_of(ws.drop_last(), wid) {
            assert(ws.drop_last()[k] == ws[k]);
        }
    }
}

/// `position_of` is the first index whose id matches.
pub proof fn lemma_position_of(ws: Seq<WindowSlot>, wid: u32, p: int)
    requires
        0 <= p <= ws.len(),
        forall|j: int| 0 <= j < p ==> #[trigger] ws[j].wid != wid,
        p < ws.len() ==> ws[p].wid == wid,
    ensures
        p < ws.len() ==> position_of(ws, wid) == Some(p),
        p == ws.len() ==> position_of(ws, wid) is None,
    decreases ws.len(),
{
    if ws.len() > 0 {
        let d = ws.drop_last();
        if p < ws.len() - 1 {
            assert forall|j: int| 0 <= j < p implies #[trigger] d[j].wid != wid by {
                assert(d[j] == ws[j]);
            }
            assert(d[p] == ws[p]);
            lemma_position_of(d, wid, p);
        } else {
            assert forall|j: int| 0 <= j < d.len() implies #[trigger] d[j].wid != wid by {
                assert(d[j] == ws[j]);
            }
            lemma_position_of(d, wid, d.len() as int);
        }
    }
}

/// The windows after the first window with id `wid` is moved so its top left corner is at
/// `(x, y)`; unchanged when there is no such window.
pub open spec fn moved(ws: Seq<WindowSlot>, wid: u32, x: i32, y: i32) -> Seq<WindowSlot> {
    match position_of(ws, wid) {
        Some(k) => ws.update(k, WindowSlot { rect: Rect { x, y, ..ws[k].rect }, ..ws[k] }),
        None => ws,
    }
}

/// The windows an `ArrayVec` holds, in order.
pub uninterp spec fn slot_list(v: ArrayVec<WindowSlot, 32>) -> Seq<WindowSlot>;

/// `ArrayVec::new`: an empty vector.
#[verifier::external_body]
fn slots_new() -> (v: ArrayVec<WindowSlot, 32>)
    ensures
        slot_list(v) == Seq::<WindowSlot>::empty(),
{
    ArrayVec::new()
}

/// `ArrayVec::push`: appends `s`; the vector must not be full.
#[verifier::external_body]
fn slots_push(v: &mut ArrayVec<WindowSlot, 32>, s: WindowSlot)
    requires
        slot_list(*old(v)).len() < 32,
    ensures
        slot_list(*final(v)) == slot_list(*old(v)).push(s),
{
    v.push(s);
}

/// `ArrayVec::len`: the number of windows held.
#[verifier::external_body]
pub(crate) fn slots_len(v: &ArrayVec<WindowSlot, 32>) -> (n: usize)
    ensures
        n == slot_list(*v).len(),
{
    v.len()
}

/// The window at `i` (indexing through the vector's slice).
#[verifier::external_body]
pub(crate) fn slots_get(v: &ArrayVec<WindowSlot, 32>, i: usize) -> (s: WindowSlot)
    requires
        i < slot_list(*v).len(),
    ensures
        s == slot_list(*v)[i as int],
{
    v[i]
}

/// The slice method `sort_unstable_by_key` with the stacking value as key: the same
/// windows, in order of non-decreasing stacking value (equal keys in no set order).
#[verifier::external_body]
fn slots_sort_by_z(v: &mut ArrayVec<WindowSlot, 32>)
    ensures
        slot_list(*final(v)).to_multiset() == slot_list(*old(v)).to_multiset(),
        slot_list(*final(v)).len() == slot_list(*old(v)).len(),
        forall|i: int, j: int| 0 <= i < j < slot_list(*final(v)).len() ==> slot_list(*final(v))[i].z <= slot_list(*final(v))[j].z,
{
    v.sort_unstable_by_key(|s| s.z);
}

pub struct Layout {
    pub mode: LayoutMode,
    pub slots: Vec<Option<WindowSlot>>,
    pub count: usize,
    pub focused: u32,
    pub screen: Rect,
}

impl Layout {
    /// The table holds `MAX_WINDOWS` slots, the first `count` of them filled.
    pub open spec fn wf(&self) -> bool {
        &&& self.slots@.len() == MAX_WINDOWS
        &&& self.count <= MAX_WINDOWS
        &&& forall|i: int| 0 <= i < self.count ==> #[trigger] self.slots@[i] is Some
        &&& forall|i: int| self.count <= i < MAX_WINDOWS ==> #[trigger] self.slots@[i] is None
    }

    /// The windows in table order.
    pub open spec fn windows(&self) -> Seq<WindowSlot> {
        Seq::new(self.count as nat, |i: int| self.slots@[i]->Some_0)
    }

    /// Whether retiling this layout stays in `i32` (see `retile_ok`).
    pub open spec fn retile_fits(&self) -> bool {
        retile_ok(self.mode, self.screen, self.count as int)
    }

    /// A layout with no windows, floating, over the screen below a 30-pixel top bar.
    pub fn new(screen_w: u16, screen_h: u16) -> (l: Self)
        requires
            screen_h >= 30,
        ensures
            l.wf(),
            l.mode == LayoutMode::Floating,
            l.windows() == Seq::<WindowSlot>::empty(),
            l.focused == 0,
            l.screen == (Rect { x: 0, y: 30, w: screen_w, h: (screen_h - 30) as u16 }),
    {
        let mut slots: Vec<Option<WindowSlot>> = Vec::new();
        let mut k: usize = 0;
        while k < MAX_WINDOWS
            invariant
                k <= MAX_WINDOWS,
                slots@.len() == k,
                forall|i: int| 0 <= i < k ==> #[trigger] slots@[i] is None,
            decreases MAX_WINDOWS - k,
        {
            slots.push(None);
            k = k + 1;
        }
        let l = Layout {
            mode: LayoutMode::Floating,
            slots,
            count: 0,
            focused: 0,
            screen: Rect { x: 0, y: 30, w: screen_w, h: screen_h - 30 },
        };
        assert(l.windows() =~= Seq::<WindowSlot>::empty());
        l
    }

    /// Gives window `i` the rectangle `rect`.
    fn set_rect(&mut self, i: usize, rect: Rect)
        requires
            old(self).wf(),
            i < old(self).count,
        ensures
            final(self).wf(),
            final(self).mode == old(self).mode,
            final(self).count == old(self).count,
            final(self).focused == old(self).focused,
            final(self).screen == old(self).screen,
            final(self).windows() == old(self).windows().update(i as int, WindowSlot { rect, ..old(self).windows()[i as int] }),
    {
        let ghost before = self.windows();
        if let Some(slot) = self.slots[i] {
            self.slots.set(i, Some(WindowSlot { rect, ..slot }));
        }
        assert(self.windows() =~= before.update(i as int, WindowSlot { rect, ..before[i as int] }));
    }

    /// Lays the windows out again by the current mode (see `retiled`).
    pub fn retile(&mut self)
        requires
            old(self).wf(),
            old(self).retile_fits(),
        ensures
            final(self).wf(),
            final(self).mode == old(self).mode,
            final(self).count == old(self).count,
            final(self).focused == old(self).focused,
            final(self).screen == old(self).screen,
            final(self).windows() == retiled(old(self).windows(), old(self).mode, old(self).screen),
    {
        let ghost ws = self.windows();
        let ghost f0 = self.focused;
        let s = self.screen;
        let n = self.count;
        if n == 0 {
            assert(retiled(ws, self.mode, s) =~= ws);
            return;
        }
        let ghost target = retiled(ws, self.mode, s);
        match self.mode {
            LayoutMode::Floating => {},
            LayoutMode::TileH => {
                let w: i32 = s.w as i32 / n as i32;
                proof {
                    vstd::arithmetic::div_mod::lemma_fundamental_div_mod(s.w as int, n as int);
                    vstd::arithmetic::div_mod::lemma_div_pos_is_pos(s.w as int, n as int);
                    vstd::arithmetic::div_mod::lemma_mod_pos_bound(s.w as int, n as int);
                }
                let mut i: usize = 0;
                while i < n
                    invariant
                        self.wf(),
                        self.mode == LayoutMode::TileH,
                        self.count == n,
                        self.screen == s,
                        self.focused == f0,
                        s.x + (n - 1) * w <= i32::MAX,
                        n > 0,
                        w == (s.w as int) / (n as int),
                        0 <= w,
                        n * w <= s.w,
                        i <= n,
                        ws.len() == n,
                        target == retiled(ws, LayoutMode::TileH, s),
                        forall|j: int| 0 <= j < i ==> #[trigger] self.windows()[j] == target[j],
                        forall|j: int| i <= j < n ==> #[trigger] self.windows()[j] == ws[j],
                    decreases n - i,
                {
                    proof {
                        assert(i * w <= n * w) by (nonlinear_arith) requires i <= n, w >= 0;
                        assert(i * w <= (n - 1) * w) by (nonlinear_arith) requires i < n, w >= 0;
                        assert(0 <= i * w) by (nonlinear_arith) requires i >= 0, w >= 0;
                    }
                    let ghost before = self.windows();
                    self.set_rect(i, Rect { x: s.x + i as i32 * w, y: s.y, w: w as u16, h: s.h });
                    assert forall|j: int| 0 <= j < n && j != i implies #[trigger] self.windows()[j] == before[j] by {}
                    i = i + 1;
                }
            },
            LayoutMode::TileV => {
                let h: i32 = s.h as i32 / n as i32;
                proof {
                    vstd::arithmetic::div_mod::lemma_fundamental_div_mod(s.h as int, n as int);
                    vstd::arithmetic::div_mod::lemma_div_pos_is_pos(s.h as int, n as int);
                    vstd::arithmetic::div_mod::lemma_mod_pos_bound(s.h as int, n as int);
                }
                let mut i: usize = 0;
                while i < n
                    invariant
                        self.wf(),
                        self.mode == LayoutMode::TileV,
                        self.count == n,
                        self.screen == s,
                        self.focused == f0,
                        s.y + (n - 1) * h <= i32::MAX,
                        n > 0,
                        h == (s.h as int) / (n as int),
                        0 <= h,
                        n * h <= s.h,
                        i <= n,
                        ws.len() == n,
                        target == retiled(ws, LayoutMode::TileV, s),
                        forall|j: int| 0 <= j < i ==> #[trigger] self.windows()[j] == target[j],
                        forall|j: int| i <= j < n ==> #[trigger] self.windows()[j] == ws[j],
                    decreases n - i,
                {
                    proof {
                        assert(i * h <= n * h) by (nonlinear_arith) requires i <= n, h >= 0;
                        assert(i * h <= (n - 1) * h) by (nonlinear_arith) requires i < n, h >= 0;
                        assert(0 <= i * h) by (nonlinear_arith) requires i >= 0, h >= 0;
                    }
                    let ghost before = self.windows();
                    self.set_rect(i, Rect { x: s.x, y: s.y + i as i32 * h, w: s.w, h: h as u16 });
                    assert forall|j: int| 0 <= j < n && j != i implies #[trigger] self.windows()[j] == before[j] by {}
                    i = i + 1;
                }
            },
            LayoutMode::Monocle => {
                let mut i: usize = 0;
                while i < n
                    invariant
                        self.wf(),
                        self.mode == LayoutMode::Monocle,
                        self.count == n,
                        self.screen == s,
                        self.focused == f0,
                        i <= n,
                        ws.len() == n,
                        target == retiled(ws, LayoutMode::Monocle, s),
                        forall|j: int| 0 <= j < i ==> #[trigger] self.windows()[j] == target[j],
                        forall|j: int| i <= j < n ==> #[trigger] self.windows()[j] == ws[j],
                    decreases n - i,
                {
                    let ghost before = self.windows();
                    self.set_rect(i, s);
                    assert forall|j: int| 0 <= j < n && j != i implies #[trigger] self.windows()[j] == before[j] by {}
                    i = i + 1;
                }
            },
            LayoutMode::Spiral => {
                let mut r = s;
                let mut i: usize = 0;
                while i < n
                    invariant_except_break
                        self.wf(),
                        self.mode == LayoutMode::Spiral,
                        self.count == n,
                        self.screen == s,
                        self.focused == f0,
                        forall|k: int| 0 <= k < n - 1 ==> #[trigger] spiral_step_fits(spiral_region(s, k as nat), k),
                        i < n,
                        ws.len() == n,
                        r == spiral_region(s, i as nat),
                        target == retiled(ws, LayoutMode::Spiral, s),
                        forall|j: int| 0 <= j < i ==> #[trigger] self.windows()[j] == target[j],
                        forall|j: int| i <= j < n ==> #[trigger] self.windows()[j] == ws[j],
                    invariant
                        self.wf(),
                        self.count == n,
                        self.mode == LayoutMode::Spiral,
                        self.screen == s,
                        self.focused == f0,
                    ensures
                        forall|j: int| 0 <= j < n ==> #[trigger] self.windows()[j] == target[j],
                    decreases n - i,
                {
                    let ghost before = self.windows();
                    if i == n - 1 {
                        self.set_rect(i, r);
                        assert forall|j: int| 0 <= j < n && j != i implies #[trigger] self.windows()[j] == before[j] by {}
                        break;
                    }
                    let ghost k: int = i as int;
                    assert(spiral_step_fits(spiral_region(s, k as nat), k));
                    if i % 2 == 0 {
                        let half_w = r.w / 2;
                        self.set_rect(i, Rect { x: r.x, y: r.y, w: half_w, h: r.h });
                        r = Rect { x: r.x + half_w as i32, y: r.y, w: r.w - half_w, h: r.h };
                    } else {
                        let half_h = r.h / 2;
                        self.set_rect(i, Rect { x: r.x, y: r.y, w: r.w, h: half_h });
                        r = Rect { x: r.x, y: r.y + half_h as i32, w: r.w, h: r.h - half_h };
                    }
                    assert forall|j: int| 0 <= j < n && j != i implies #[trigger] self.windows()[j] == before[j] by {}
                    i = i + 1;
                }
            },
        }
        assert(self.windows() =~= target);
    }

    /// Adds window `wid` at `rect` on top of the others and focuses it, then retiles unless
    /// floating; a full layout ignores the call.
    pub fn insert(&mut self, wid: u32, rect: Rect)
        requires
            old(self).wf(),
            old(self).count < MAX_WINDOWS && old(self).mode != LayoutMode::Floating
                ==> retile_ok(old(self).mode, old(self).screen, old(self).count + 1),
        ensures
            final(self).wf(),
            old(self).count >= MAX_WINDOWS ==> *final(self) == *old(self),
            old(self).count < MAX_WINDOWS ==> {
                &&& final(self).count == old(self).count + 1
                &&& final(self).focused == wid
                &&& final(self).mode == old(self).mode
                &&& final(self).screen == old(self).screen
                &&& final(self).windows() == retiled(
                    old(self).windows().push(WindowSlot { wid, rect, z: old(self).count as u8, pinned: false }),
                    old(self).mode,
                    old(self).screen,
                )
            },
    {
        if self.count >= MAX_WINDOWS {
            return;
        }
        let ghost ws = self.windows();
        let z = self.count as u8;
        self.slots.set(self.count, Some(WindowSlot { wid, rect, z, pinned: false }));
        self.count = self.count + 1;
        self.focused = wid;
        assert(self.windows() =~= ws.push(WindowSlot { wid, rect, z, pinned: false }));
        if self.mode != LayoutMode::Floating {
            self.retile();
        }
    }

    /// Whether window `i` has id `wid`.
    fn has_wid(&self, i: usize, wid: u32) -> (res: bool)
        requires
            self.wf(),
            i < self.count,
        ensures
            res == (self.windows()[i as int].wid == wid),
    {
        match self.slots[i] {
            Some(s) => s.wid == wid,
            None => false,
        }
    }

    /// The rectangle of the first window with id `wid`.
    pub fn rect_of(&self, wid: u32) -> (res: Option<Rect>)
        requires
            self.wf(),
        ensures
            res == (match position_of(self.windows(), wid) {
                Some(k) => Some(self.windows()[k].rect),
                None => None,
            }),
    {
        let ghost ws = self.windows();
        let mut pos: usize = 0;
        while pos < self.count && !self.has_wid(pos, wid)
            invariant
                self.wf(),
                ws == self.windows(),
                pos <= self.count,
                forall|j: int| 0 <= j < pos ==> #[trigger] ws[j].wid != wid,
            decreases self.count - pos,
        {
            pos = pos + 1;
        }
        proof {
            lemma_position_of(ws, wid, pos as int);
        }
        if pos < self.count {
            match self.slots[pos] {
                Some(s) => Some(s.rect),
                None => None,
            }
        } else {
            None
        }
    }

    /// Moves the first window with id `wid` so its top left corner is at `(x, y)`.
    pub fn move_window(&mut self, wid: u32, x: i32, y: i32)
        requires
            old(self).wf(),
        ensures
            final(self).wf(),
            final(self).mode == old(self).mode,
            final(self).count == old(self).count,
            final(self).focused == old(self).focused,
            final(self).screen == old(self).screen,
            final(self).windows() == moved(old(self).windows(), wid, x, y),
    {
        let ghost ws = self.windows();
        let mut pos: usize = 0;
        while pos < self.count && !self.has_wid(pos, wid)
            invariant
                self.wf(),
                ws == self.windows(),
                pos <= self.count,
                forall|j: int| 0 <= j < pos ==> #[trigger] ws[j].wid != wid,
            decreases self.count - pos,
        {
            pos = pos + 1;
        }
        proof {
            lemma_position_of(ws, wid, pos as int);
        }
        if pos < self.count {
            if let Some(s) = self.slots[pos] {
                self.set_rect(pos, Rect { x, y, ..s.rect });
            }
        }
    }

    /// The windows in drawing order: bottom-most (lowest stacking value) first.
    pub fn sorted_slots(&self) -> (out: ArrayVec<WindowSlot, 32>)
        requires
            self.wf(),
        ensures
            slot_list(out).to_multiset() == self.windows().to_multiset(),
            slot_list(out).len() == self.count,
            forall|i: int, j: int| 0 <= i < j < slot_list(out).len() ==> slot_list(out)[i].z <= slot_list(out)[j].z,
    {
        let ghost ws = self.windows();
        let mut out = slots_new();
        let mut i: usize = 0;
        while i < self.count
            invariant
                self.wf(),
                ws == self.windows(),
                i <= self.count,
                slot_list(out) == ws.take(i as int),
            decreases self.count - i,
        {
            if let Some(s) = self.slots[i] {
                assert(s == ws[i as int]);
                slots_push(&mut out, s);
            }
            assert(ws.take(i + 1) =~= ws.take(i as int).push(ws[i as int]));
            i = i + 1;
        }
        assert(ws.take(self.count as int) =~= ws);
        slots_sort_by_z(&mut out);
        out
    }

    /// Takes out the first window with id `wid`, closing the gap, then retiles unless
    /// floating; nothing happens when there is no such window. The focus is not changed.
    pub fn remove(&mut self, wid: u32)
        requires
            old(self).wf(),
            position_of(old(self).windows(), wid) is Some && old(self).mode != LayoutMode::Floating
                ==> retile_ok(old(self).mode, old(self).screen, old(self).count - 1),
        ensures
            final(self).wf(),
            position_of(old(self).windows(), wid) is None ==> *final(self) == *old(self),
            position_of(old(self).windows(), wid) matches Some(i) ==> {
                &&& final(self).count == old(self).count - 1
                &&& final(self).focused == old(self).focused
                &&& final(self).mode == old(self).mode
                &&& final(self).screen == old(self).screen
                &&& final(self).windows() == retiled(old(self).windows().remove(i), old(self).mode, old(self).screen)
            },
    {
        let ghost ws = self.windows();
        let mut pos: usize = 0;
        while pos < self.count && !self.has_wid(pos, wid)
            invariant
                self.wf(),
                ws == self.windows(),
                pos <= self.count,
                forall|j: int| 0 <= j < pos ==> #[trigger] ws[j].wid != wid,
            decreases self.count - pos,
        {
            pos = pos + 1;
        }
        let found = pos < self.count;
        proof {
            lemma_position_of(ws, wid, if found { pos as int } else { ws.len() as int });
        }
        if !found {
            return;
        }
        let n = self.count;
        let mut k: usize = pos;
        let ghost s0 = self.screen;
        let ghost m0 = self.mode;
        let ghost f0 = self.focused;
        while k + 1 < n
            invariant
                self.screen == s0 && self.mode == m0 && self.focused == f0,
                m0 != LayoutMode::Floating ==> retile_ok(m0, s0, n - 1),
                self.slots@.len() == MAX_WINDOWS,
                self.count == n,
                n <= MAX_WINDOWS,
                pos < n,
                pos <= k < n,
                ws.len() == n,
                forall|j: int| 0 <= j < pos ==> #[trigger] self.slots@[j] == Some(ws[j]),
                forall|j: int| pos <= j < k ==> #[trigger] self.slots@[j] == Some(ws[j + 1]),
                forall|j: int| k <= j < n ==> #[trigger] self.slots@[j] == Some(ws[j]),
                forall|j: int| n <= j < MAX_WINDOWS ==> #[trigger] self.slots@[j] is None,
            decreases n - k,
        {
            let next = self.slots[k + 1];
            self.slots.set(k, next);
            k = k + 1;
        }
        self.slots.set(n - 1, None);
        self.count = n - 1;
        assert(self.windows() =~= ws.remove(pos as int));
        if self.mode != LayoutMode::Floating {
            self.retile();
        }
    }

    /// Focuses `wid` and raises every window with that id above all others.
    pub fn focus(&mut self, wid: u32)
        requires
            old(self).wf(),
            max_z(old(self).windows()) < 255 || forall|j: int| 0 <= j < old(self).count ==> #[trigger] old(self).windows()[j].wid != wid,
        ensures
            final(self).wf(),
            final(self).focused == wid,
            final(self).count == old(self).count,
            final(self).mode == old(self).mode,
            final(self).screen == old(self).screen,
            final(self).windows() == raised(old(self).windows(), wid),
    {
        let ghost ws = self.windows();
        let ghost s0 = self.screen;
        let ghost m0 = self.mode;
        self.focused = wid;
        let mut m: u8 = 0;
        let mut i: usize = 0;
        while i < self.count
            invariant
                self.wf(),
                ws == self.windows(),
                self.focused == wid && self.screen == s0 && self.mode == m0,
                i <= self.count,
                m == max_z(ws.take(i as int)),
            decreases self.count - i,
        {
            if let Some(s) = self.slots[i] {
                assert(s == ws[i as int]);
                assert(ws.take(i + 1).drop_last() =~= ws.take(i as int));
                if s.z > m {
                    m = s.z;
                }
            }
            i = i + 1;
        }
        assert(ws.take(self.count as int) =~= ws);
        let mut i: usize = 0;
        while i < self.count
            invariant
                self.wf(),
                self.count == ws.len(),
                self.focused == wid && self.screen == s0 && self.mode == m0,
                m == max_z(ws),
                max_z(ws) < 255 || forall|j: int| 0 <= j < ws.len() ==> #[trigger] ws[j].wid != wid,
                i <= self.count,
                forall|j: int| 0 <= j < i ==> #[trigger] self.windows()[j] == raised(ws, wid)[j],
                forall|j: int| i <= j < self.count ==> #[trigger] self.windows()[j] == ws[j],
            decreases self.count - i,
        {
            let ghost before_s = self.slots@;
            let ghost before = self.windows();
            assert(self.windows()[i as int] == ws[i as int]);
            if let Some(s) = self.slots[i] {
                assert(s == ws[i as int]);
                if s.wid == wid {
                    self.slots.set(i, Some(WindowSlot { z: m + 1, ..s }));
                }
            }
            assert forall|j: int| 0 <= j < self.count && j != i implies #[trigger] self.windows()[j] == before[j] by {
                assert(self.slots@[j] == before_s[j]);
            }
            assert(self.windows()[i as int] == raised(ws, wid)[i as int]);
            i = i + 1;
        }
        assert(self.windows() =~= raised(ws, wid));
    }

    /// Moves to the next layout mode and retiles.
    pub fn cycle_mode(&mut self)
        requires
            old(self).wf(),
            retile_ok(next_mode(old(self).mode), old(self).screen, old(self).count as int),
        ensures
            final(self).wf(),
            final(self).mode == next_mode(old(self).mode),
            final(self).count == old(self).count,
            final(self).focused == old(self).focused,
            final(self).screen == old(self).screen,
            final(self).windows() == retiled(old(self).windows(), next_mode(old(self).mode), old(self).screen),
    {
        self.mode = match self.mode {
            LayoutMode::Floating => LayoutMode::TileH,
            LayoutMode::TileH => LayoutMode::TileV,
            LayoutMode::TileV => LayoutMode::Monocle,
            LayoutMode::Monocle => LayoutMode::Spiral,
            LayoutMode::Spiral => LayoutMode::Floating,
        };
        self.retile();
    }

    /// The window under the point: among the windows whose rectangle contains it, the one
    /// with the highest stacking value, the later one on a tie.
    pub fn slot_at(&self, px: i32, py: i32) -> (res: Option<u32>)
        requires
            self.wf(),
            forall|j: int| 0 <= j < self.count ==> (#[trigger] self.windows()[j]).rect.contains_ok(px as int, py as int),
        ensures
            res == hit_scan(self.windows(), px as int, py as int, self.count as nat).1,
    {
        let ghost ws = self.windows();
        let mut best_z: u8 = 0;
        let mut best_wid: Option<u32> = None;
        let mut i: usize = 0;
        while i < self.count
            invariant
                self.wf(),
                ws == self.windows(),
                forall|j: int| 0 <= j < self.count ==> (#[trigger] ws[j]).rect.contains_ok(px as int, py as int),
                i <= self.count,
                (best_z, best_wid) == hit_scan(ws, px as int, py as int, i as nat),
            decreases self.count - i,
        {
            if let Some(s) = self.slots[i] {
                assert(s == ws[i as int]);
                if s.rect.contains(px, py) && s.z >= best_z {
                    best_z = s.z;
                    best_wid = Some(s.wid);
                }
            }
            i = i + 1;
        }
        best_wid
    }
}

/// Cycling the layout mode five times comes back to the starting mode.
pub proof fn law_cycle_mode_period(m: LayoutMode)
    ensures
        next_mode(next_mode(next_mode(next_mode(next_mode(m))))) == m,
{
}

/// The stacking value the scan settles on is 0 or that of a window under the point that it
/// has already seen.
proof fn lemma_hit_scan_witness(ws: Seq<WindowSlot>, px: int, py: int, m: nat)
    requires
        m <= ws.len(),
    ensures
        hit_scan(ws, px, py, m).0 == 0 || exists|j: int| 0 <= j < m && ws[j].rect.spec_contains(px, py) && ws[j].z == hit_scan(ws, px, py, m).0,
        hit_scan(ws, px, py, m).1 is None ==> hit_scan(ws, px, py, m).0 == 0,
    decreases m,
{
    if m > 0 {
        lemma_hit_scan_witness(ws, px, py, (m - 1) as nat);
    }
}

/// When window `k` lies under the point and stacks strictly above every other window under
/// it, the scan ends on window `k`.
proof fn lemma_hit_scan_top(ws: Seq<WindowSlot>, px: int, py: int, k: int, m: nat)
    requires
        0 <= k < ws.len(),
        m <= ws.len(),
        ws[k].rect.spec_contains(px, py),
        ws[k].z > 0,
        forall|j: int| 0 <= j < ws.len() && j != k && #[trigger] ws[j].rect.spec_contains(px, py) ==> ws[j].z < ws[k].z,
    ensures
        m <= k ==> hit_scan(ws, px, py, m).0 < ws[k].z,
        m > k ==> hit_scan(ws, px, py, m) == (ws[k].z, Some(ws[k].wid)),
    decreases m,
{
    if m > 0 {
        lemma_hit_scan_top(ws, px, py, k, (m - 1) as nat);
    }
    lemma_hit_scan_witness(ws, px, py, m);
}

/// `max_z` is at least every window's stacking value.
pub proof fn lemma_max_z_bound(ws: Seq<WindowSlot>, j: int)
    requires
        0 <= j < ws.len(),
    ensures
        ws[j].z <= max_z(ws),
    decreases ws.len(),
{
    if j < ws.len() - 1 {
        assert(ws.drop_last()[j] == ws[j]);
        lemma_max_z_bound(ws.drop_last(), j);
    }
}

/// After `focus(wid)`, when `wid` is the id of exactly one window and that window lies under
/// the point, `slot_at` finds that window: focusing brings a window to the top.
pub proof fn law_focused_window_is_hit(ws: Seq<WindowSlot>, wid: u32, k: int, px: int, py: int)
    requires
        0 <= k < ws.len(),
        ws[k].wid == wid,
        forall|j: int| 0 <= j < ws.len() && j != k ==> #[trigger] ws[j].wid != wid,
        max_z(ws) < 255,
        ws[k].rect.spec_contains(px, py),
    ensures
        hit_scan(raised(ws, wid), px, py, ws.len()).1 == Some(wid),
{
    let rs = raised(ws, wid);
    assert forall|j: int| 0 <= j < rs.len() && j != k && #[trigger] rs[j].rect.spec_contains(px, py) implies rs[j].z < rs[k].z by {
        lemma_max_z_bound(ws, j);
    }
    lemma_hit_scan_top(rs, px, py, k, ws.len());
}

/// In floating mode, removing a window just inserted (with an id no other window has) gives
/// back the windows as they were.
pub proof fn law_remove_undoes_insert(ws: Seq<WindowSlot>, wid: u32, rect: Rect, screen: Rect)
    requires
        forall|j: int| 0 <= j < ws.len() ==> #[trigger] ws[j].wid != wid,
    ensures
        ({
            let added = retiled(ws.push(WindowSlot { wid, rect, z: ws.len() as u8, pinned: false }), LayoutMode::Floating, screen);
            &&& position_of(added, wid) == Some(ws.len() as int)
            &&& retiled(added.remove(ws.len() as int), LayoutMode::Floating, screen) == ws
        }),
{
    let added = ws.push(WindowSlot { wid, rect, z: ws.len() as u8, pinned: false });
    assert forall|j: int| 0 <= j < ws.len() implies #[trigger] added[j].wid != wid by {
        assert(added[j] == ws[j]);
    }
    lemma_position_of(added, wid, ws.len() as int);
    assert(added.remove(ws.len() as int) =~= ws);
}

/// What retiling gives each window: every window keeps its id, stacking value and pin, and
/// the window count stays; floating leaves every rectangle as it is; monocle gives every
/// window the whole screen; side-by-side tiling gives window `i` of `n` the `i`-th of `n`
/// equal columns (the width divided down), one-above-the-other tiling the `i`-th of `n`
/// equal rows; a spiral gives a lone window the whole screen and, with more windows, the
/// first the left half of it.
pub proof fn law_retile_rectangles(ws: Seq<WindowSlot>, s: Rect, i: int)
    requires
        0 <= i < ws.len(),
    ensures
        retiled(ws, LayoutMode::Floating, s).len() == ws.len(),
        retiled(ws, LayoutMode::Monocle, s).len() == ws.len(),
        retiled(ws, LayoutMode::TileH, s).len() == ws.len(),
        retiled(ws, LayoutMode::TileV, s).len() == ws.len(),
        retiled(ws, LayoutMode::Spiral, s).len() == ws.len(),
        forall|m: LayoutMode| #![trigger retiled(ws, m, s)] {
            &&& retiled(ws, m, s)[i].wid == ws[i].wid
            &&& retiled(ws, m, s)[i].z == ws[i].z
            &&& retiled(ws, m, s)[i].pinned == ws[i].pinned
        },
        retiled(ws, LayoutMode::Floating, s)[i] == ws[i],
        retiled(ws, LayoutMode::Monocle, s)[i].rect == s,
        retiled(ws, LayoutMode::TileH, s)[i].rect.y == s.y,
        retiled(ws, LayoutMode::TileH, s)[i].rect.h == s.h,
        retiled(ws, LayoutMode::TileH, s)[i].rect.w as int == (s.w as int) / (ws.len() as int),
        retiled(ws, LayoutMode::TileH, s)[i].rect.x as int == (s.x + i * ((s.w as int) / (ws.len() as int))) as i32,
        retiled(ws, LayoutMode::TileV, s)[i].rect.x == s.x,
        retiled(ws, LayoutMode::TileV, s)[i].rect.w == s.w,
        retiled(ws, LayoutMode::TileV, s)[i].rect.h as int == (s.h as int) / (ws.len() as int),
        retiled(ws, LayoutMode::TileV, s)[i].rect.y as int == (s.y + i * ((s.h as int) / (ws.len() as int))) as i32,
        ws.len() == 1 ==> retiled(ws, LayoutMode::Spiral, s)[0].rect == s,
        ws.len() > 1 ==> retiled(ws, LayoutMode::Spiral, s)[0].rect == (Rect { x: s.x, y: s.y, w: (s.w / 2) as u16, h: s.h }),
{
    assert(s.w as int / ws.len() as int <= s.w) by {
        vstd::arithmetic::div_mod::lemma_div_is_ordered_by_denominator(s.w as int, 1, ws.len() as int);
    }
    assert(s.h as int / ws.len() as int <= s.h) by {
        vstd::arithmetic::div_mod::lemma_div_is_ordered_by_denominator(s.h as int, 1, ws.len() as int);
    }
    assert(spiral_region(s, 0) == s);
}

/// What `slot_at` finds is the topmost window under the point: nothing exactly when no window
/// covers it; otherwise a window that covers it, whose stacking value is at least that of
/// every window covering it, and the last such window in table order.
pub proof fn law_hit_is_topmost(ws: Seq<WindowSlot>, px: int, py: int)
    ensures
        hit_scan(ws, px, py, ws.len()).1 is None <==> forall|i: int| 0 <= i < ws.len() ==> !(#[trigger] ws[i].rect.spec_contains(px, py)),
        hit_scan(ws, px, py, ws.len()).1 matches Some(w) ==> exists|k: int| {
            &&& 0 <= k < ws.len()
            &&& #[trigger] ws[k].wid == w
            &&& ws[k].rect.spec_contains(px, py)
            &&& forall|i: int| 0 <= i < ws.len() && #[trigger] ws[i].rect.spec_contains(px, py) ==> ws[i].z <= ws[k].z
            &&& forall|i: int| k < i < ws.len() && #[trigger] ws[i].rect.spec_contains(px, py) ==> ws[i].z < ws[k].z
        },
{
    lemma_hit_topmost(ws, px, py, ws.len());
}

/// The scan over the first `m` windows: its answer is the topmost (last on a tie) window
/// under the point among them, with its stacking value.
proof fn lemma_hit_topmost(ws: Seq<WindowSlot>, px: int, py: int, m: nat)
    requires
        m <= ws.len(),
    ensures
        hit_scan(ws, px, py, m).1 is None <==> forall|i: int| 0 <= i < m ==> !(#[trigger] ws[i].rect.spec_contains(px, py)),
        hit_scan(ws, px, py, m).1 is None ==> hit_scan(ws, px, py, m).0 == 0,
        hit_scan(ws, px, py, m).1 matches Some(w) ==> exists|k: int| {
            &&& 0 <= k < m
            &&& #[trigger] ws[k].wid == w
            &&& ws[k].z == hit_scan(ws, px, py, m).0
            &&& ws[k].rect.spec_contains(px, py)
            &&& forall|i: int| 0 <= i < m && #[trigger] ws[i].rect.spec_contains(px, py) ==> ws[i].z <= ws[k].z
            &&& forall|i: int| k < i < m && #[trigger] ws[i].rect.spec_contains(px, py) ==> ws[i].z < ws[k].z
        },
    decreases m,
{
    if m > 0 {
        lemma_hit_topmost(ws, px, py, (m - 1) as nat);
        let (bz, bw) = hit_scan(ws, px, py, (m - 1) as nat);
        let s = ws[m - 1];
        if s.rect.spec_contains(px, py) && s.z >= bz {
            let k = m - 1;
            assert(ws[k].wid == s.wid);
            if let Some(w0) = bw {
                let k0 = choose|k0: int| {
                    &&& 0 <= k0 < m - 1
                    &&& #[trigger] ws[k0].wid == w0
                    &&& ws[k0].z == bz
                    &&& ws[k0].rect.spec_contains(px, py)
                    &&& forall|i: int| 0 <= i < m - 1 && #[trigger] ws[i].rect.spec_contains(px, py) ==> ws[i].z <= ws[k0].z
                    &&& forall|i: int| k0 < i < m - 1 && #[trigger] ws[i].rect.spec_contains(px, py) ==> ws[i].z < ws[k0].z
                };
                assert forall|i: int| 0 <= i < m && #[trigger] ws[i].rect.spec_contains(px, py) implies ws[i].z <= ws[k].z by {
                    if i < m - 1 {
                        assert(ws[i].z <= ws[k0].z);
                    }
                }
            }
        } else if let Some(w0) = bw {
            let k0 = choose|k0: int| {
                &&& 0 <= k0 < m - 1
                &&& #[trigger] ws[k0].wid == w0
                &&& ws[k0].z == bz
                &&& ws[k0].rect.spec_contains(px, py)
                &&& forall|i: int| 0 <= i < m - 1 && #[trigger] ws[i].rect.spec_contains(px, py) ==> ws[i].z <= ws[k0].z
                &&& forall|i: int| k0 < i < m - 1 && #[trigger] ws[i].rect.spec_contains(px, py) ==> ws[i].z < ws[k0].z
            };
            assert(ws[k0].wid == w0);
        } else {
            assert forall|i: int| 0 <= i < m implies !(#[trigger] ws[i].rect.spec_contains(px, py)) by {
                if i == m - 1 {
                    assert(bz == 0);
                }
            }
        }
    }
}

} // verus!
