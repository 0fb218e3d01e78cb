use vstd::prelude::*;
use arrayvec::ArrayVec;
use crate::wmc::layout::{Layout, WindowSlot, hit_scan, position_of, raised, retiled, retile_ok, next_mode, max_z, moved, LayoutMode};
use crate::wmc::surface::Rect;
use crate::wdg::desktop::Desktop;
use crate::evp::event::Event;

verus! {

#[verifier::external_type_specification]
#[verifier::external_body]
#[verifier::reject_recursive_types(T)]
pub struct ExArrayVec<T, const CAP: usize>(ArrayVec<T, CAP>);

pub const TITLEBAR_H: i32 = 26;
pub const BORDER_W: i32 = 1;
pub const TOPBAR_H: i32 = 30;
pub const SHADOW_SPREAD: i32 = 8;

#[derive(Clone, Copy, Debug, PartialEq, Eq, Structural)]
pub enum WindowState {
    Normal,
    Minimised,
    Maximised,
}

/// A client window as the window manager's logic sees it: its id, title, state and buffer
/// size. (Its animations and pixels are kept by the renderer.)
#[derive(Clone, Copy, Debug)]
pub struct Window {
    pub wid: u32,
    pub title: [u8; 32],
    pub title_len: usize,
    pub state: WindowState,
    pub buf_w: u16,
    pub buf_h: u16,
}

/// The windows an `ArrayVec` holds, in order.
pub uninterp spec fn window_list(v: ArrayVec<Window, 32>) -> Seq<Window>;

/// The ids of a sequence of windows, in order.
pub open spec fn ids_of(ws: Seq<Window>) -> Seq<u32> {
    ws.map_values(|w: Window| w.wid)
}

/// The ids of the windows an `ArrayVec` holds, in order.
pub open spec fn window_ids(v: ArrayVec<Window, 32>) -> Seq<u32> {
    ids_of(window_list(v))
}

/// `ArrayVec::new`: an empty vector.
#[verifier::external_body]
fn windows_new() -> (v: ArrayVec<Window, 32>)
    ensures
        window_list(v) == Seq::<Window>::empty(),
{
    ArrayVec::new()
}

/// `ArrayVec::len`: the number of windows held.
#[verifier::external_body]
fn windows_len(v: &ArrayVec<Window, 32>) -> (n: usize)
    ensures
        n == window_list(*v).len(),
{
    v.len()
}

/// The id of the window at `i` (indexing through the vector's slice).
#[verifier::external_body]
fn window_id_at(v: &ArrayVec<Window, 32>, i: usize) -> (wid: u32)
    requires
        i < window_list(*v).len(),
    ensures
        wid == window_list(*v)[i as int].wid,
{
    v[i].wid
}

/// `ArrayVec::remove`: takes out the window at `i`, shifting the later ones down.
#[verifier::external_body]
fn windows_remove(v: &mut ArrayVec<Window, 32>, i: usize)
    requires
        i < window_list(*old(v)).len(),
    ensures
        window_list(*final(v)) == window_list(*old(v)).remove(i as int),
{
    v.remove(i);
}

/// The first index whose id is `wid`.
pub open spec fn first_index(s: Seq<u32>, wid: u32) -> Option<int>
    decreases s.len(),
{
    if s.len() == 0 {
        None
    } else {
        match first_index(s.drop_last(), wid) {
            Some(i) => Some(i),
            None => if s.last() == wid { Some(s.len() - 1) } else { None },
        }
    }
}

proof fn lemma_first_index(s: Seq<u32>, wid: u32, p: int)
    requires
        0 <= p <= s.len(),
        forall|j: int| 0 <= j < p ==> #[trigger] s[j] != wid,
        p < s.len() ==> s[p] == wid,
    ensures
        p < s.len() ==> first_index(s, wid) == Some(p),
        p == s.len() ==> first_index(s, wid) is None,
    decreases s.len(),
{
    if s.len() > 0 {
        let d = s.drop_last();
        if p < s.len() - 1 {
            assert forall|j: int| 0 <= j < p implies #[trigger] d[j] != wid by {
                assert(d[j] == s[j]);
            }
            assert(d[p] == s[p]);
            lemma_first_index(d, wid, p);
        } else {
            assert forall|j: int| 0 <= j < d.len() implies #[trigger] d[j] != wid by {
                assert(d[j] == s[j]);
            }
            lemma_first_index(d, wid, d.len() as int);
        }
    }
}

/// The windows after closing `wid`: the first with that id taken out.
pub open spec fn without_window(ws: Seq<Window>, wid: u32) -> Seq<Window> {
    match first_index(ids_of(ws), wid) {
        Some(i) => ws.remove(i),
        None => ws,
    }
}

/// The layout windows after closing `wid` in a layout of mode `mode` over `screen`.
pub open spec fn layout_without(ws: Seq<WindowSlot>, wid: u32, mode: LayoutMode, screen: Rect) -> Seq<WindowSlot> {
    match position_of(ws, wid) {
        Some(i) => retiled(ws.remove(i), mode, screen),
        None => ws,
    }
}

/// What `dispatch` does with a mouse event that holds the left button and drags nothing:
/// the window under the pointer (`hit_scan`), when the pointer is on its title bar (judged
/// on the first window with that id), starts being dragged and is focused.
pub open spec fn grab_target(ws: Seq<WindowSlot>, x: i32, y: i32) -> Option<(u32, int)> {
    match hit_scan(ws, x as int, y as int, ws.len()).1 {
        Some(wid) => match position_of(ws, wid) {
            Some(k) => if ws[k].rect.y <= y < ws[k].rect.y + TITLEBAR_H { Some((wid, k)) } else { None },
            None => None,
        },
        None => None,
    }
}

/// Closing `wid` in layout `l` stays in `i32`: when the window is there and the layout
/// tiles, retiling the rest must (see `retile_ok`).
pub open spec fn close_ok(l: Layout, wid: u32) -> bool {
    position_of(l.windows(), wid) is Some && l.mode != LayoutMode::Floating
        ==> retile_ok(l.mode, l.screen, l.count - 1)
}

/// `dispatch` can handle `e` on `c` without overflow or out-of-range steps.
pub open spec fn dispatch_ok(c: Compositor, e: Event) -> bool {
    &&& c.layout.wf()
    &&& match e {
        Event::Mouse { x, y, buttons, .. } => buttons & 1u8 != 0 ==> match c.drag_wid {
            Some(_) => i32::MIN <= x - c.drag_ox <= i32::MAX && i32::MIN <= y - c.drag_oy <= i32::MAX,
            None => {
                let ws = c.layout.windows();
                &&& forall|j: int| 0 <= j < ws.len() ==> (#[trigger] ws[j]).rect.contains_ok(x as int, y as int)
                &&& match hit_scan(ws, x as int, y as int, ws.len()).1 {
                    Some(wid) => match position_of(ws, wid) {
                        Some(k) => {
                            &&& ws[k].rect.y <= y ==> ws[k].rect.y + TITLEBAR_H <= i32::MAX
                            &&& (ws[k].rect.y <= y < ws[k].rect.y + TITLEBAR_H) ==> {
                                &&& i32::MIN <= x - ws[k].rect.x <= i32::MAX
                                &&& i32::MIN <= y - ws[k].rect.y <= i32::MAX
                                &&& max_z(ws) < 255
                            }
                        },
                        None => true,
                    },
                    None => true,
                }
            },
        },
        Event::Key { code, modifiers, pressed } => pressed && modifiers & 4u8 != 0 ==> {
            &&& code == 0x11 ==> retile_ok(next_mode(c.layout.mode), c.layout.screen, c.layout.count as int)
            &&& (code == 0x13 && c.layout.focused != 0) ==> close_ok(c.layout, c.layout.focused)
        },
        Event::Close { wid } => close_ok(c.layout, wid),
        _ => true,
    }
}

/// `dispatch(e)` took `b` to `a`. A mouse event moves the cursor; with the left button held
/// it moves the dragged window by the pointer (keeping the grab offset) or, when nothing is
/// dragged, grabs the window whose title bar is under the pointer (`grab_target`) and
/// focuses it; with the button up it ends any drag. Super+W (code 0x11, modifier bit 0x04)
/// cycles the layout mode; Super+Q (0x13) closes the focused window. A close event closes
/// that window. Other events change nothing.
pub open spec fn dispatched(b: Compositor, a: Compositor, e: Event) -> bool {
    let ws = b.layout.windows();
    &&& a.same_frame(&b)
    &&& a.desktop == b.desktop
    &&& a.layout.wf()
    &&& match e {
        Event::Mouse { x, y, buttons, .. } => {
            &&& a.cursor_x == x && a.cursor_y == y
            &&& window_list(a.windows) == window_list(b.windows)
            &&& if buttons & 1u8 != 0 {
                match b.drag_wid {
                    Some(wid) => {
                        &&& a.layout.windows() == moved(ws, wid, (x - b.drag_ox) as i32, (y - b.drag_oy) as i32)
                        &&& a.layout.mode == b.layout.mode && a.layout.focused == b.layout.focused
                        &&& a.drag_wid == b.drag_wid && a.drag_ox == b.drag_ox && a.drag_oy == b.drag_oy
                    },
                    None => match grab_target(ws, x, y) {
                        Some((wid, k)) => {
                            &&& a.layout.windows() == raised(ws, wid)
                            &&& a.layout.focused == wid
                            &&& a.layout.mode == b.layout.mode
                            &&& a.drag_wid == Some(wid)
                            &&& a.drag_ox == x - ws[k].rect.x
                            &&& a.drag_oy == y - ws[k].rect.y
                        },
                        None => {
                            &&& a.layout == b.layout
                            &&& a.drag_wid == b.drag_wid && a.drag_ox == b.drag_ox && a.drag_oy == b.drag_oy
                        },
                    },
                }
            } else {
                &&& a.layout == b.layout
                &&& a.drag_wid is None && a.drag_ox == b.drag_ox && a.drag_oy == b.drag_oy
            }
        },
        Event::Key { code, modifiers, pressed } => {
            &&& a.cursor_x == b.cursor_x && a.cursor_y == b.cursor_y
            &&& a.drag_wid == b.drag_wid && a.drag_ox == b.drag_ox && a.drag_oy == b.drag_oy
            &&& if pressed && modifiers & 4u8 != 0 && code == 0x11 {
                &&& a.layout.mode == next_mode(b.layout.mode)
                &&& a.layout.focused == b.layout.focused
                &&& a.layout.windows() == retiled(ws, next_mode(b.layout.mode), b.layout.screen)
                &&& window_list(a.windows) == window_list(b.windows)
            } else if pressed && modifiers & 4u8 != 0 && code == 0x13 && b.layout.focused != 0 {
                &&& a.layout.mode == b.layout.mode
                &&& a.layout.focused == b.layout.focused
                &&& a.layout.windows() == layout_without(ws, b.layout.focused, b.layout.mode, b.layout.screen)
                &&& window_list(a.windows) == without_window(window_list(b.windows), b.layout.focused)
            } else {
                &&& a.layout == b.layout
                &&& window_list(a.windows) == window_list(b.windows)
            }
        },
        Event::Close { wid } => {
            &&& a.cursor_x == b.cursor_x && a.cursor_y == b.cursor_y
            &&& a.drag_wid == b.drag_wid && a.drag_ox == b.drag_ox && a.drag_oy == b.drag_oy
            &&& a.layout.mode == b.layout.mode
            &&& a.layout.focused == b.layout.focused
            &&& a.layout.windows() == layout_without(ws, wid, b.layout.mode, b.layout.screen)
            &&& window_list(a.windows) == without_window(window_list(b.windows), wid)
        },
        _ => {
            &&& a.layout == b.layout
            &&& window_list(a.windows) == window_list(b.windows)
            &&& a.cursor_x == b.cursor_x && a.cursor_y == b.cursor_y
            &&& a.drag_wid == b.drag_wid && a.drag_ox == b.drag_ox && a.drag_oy == b.drag_oy
        },
    }
}

pub struct Compositor {
    pub screen_w: u16,
    pub screen_h: u16,
    pub layout: Layout,
    pub desktop: Option<Desktop>,
    pub windows: ArrayVec<Window, 32>,
    pub next_wid: u32,
    pub cursor_x: i32,
    pub cursor_y: i32,
    pub drag_wid: Option<u32>,
    pub drag_ox: i32,
    pub drag_oy: i32,
    pub resize_wid: Option<u32>,
    pub clock_tick: u64,
}

impl Compositor {
    /// The screen, the counters and the layout's screen area are the same as `other`'s.
    pub open spec fn same_frame(&self, other: &Compositor) -> bool {
        &&& self.screen_w == other.screen_w
        &&& self.screen_h == other.screen_h
        &&& self.next_wid == other.next_wid
        &&& self.resize_wid == other.resize_wid
        &&& self.clock_tick == other.clock_tick
        &&& self.layout.screen == other.layout.screen
    }

    /// A compositor for a `w` by `h` screen: floating layout below the top bar, no windows,
    /// no desktop yet, cursor in the middle, nothing dragged.
    pub fn new(w: u16, h: u16) -> (c: Self)
        requires
            h >= 30,
        ensures
            c.screen_w == w && c.screen_h == h,
            c.layout.wf(),
            c.layout.mode == LayoutMode::Floating,
            c.layout.windows() == Seq::<WindowSlot>::empty(),
            c.layout.focused == 0,
            c.layout.screen == (Rect { x: 0, y: 30, w, h: (h - 30) as u16 }),
            c.desktop is None,
            window_list(c.windows) == Seq::<Window>::empty(),
            c.next_wid == 1,
            c.cursor_x == w / 2 && c.cursor_y == h / 2,
            c.drag_wid is None && c.drag_ox == 0 && c.drag_oy == 0,
            c.resize_wid is None,
            c.clock_tick == 0,
    {
        Compositor {
            screen_w: w,
            screen_h: h,
            layout: Layout::new(w, h),
            desktop: None,
            windows: windows_new(),
            next_wid: 1,
            cursor_x: (w / 2) as i32,
            cursor_y: (h / 2) as i32,
            drag_wid: None,
            drag_ox: 0,
            drag_oy: 0,
            resize_wid: None,
            clock_tick: 0,
        }
    }

    /// Shows desktop `d`.
    pub fn push_workspace(&mut self, d: Desktop)
        ensures
            final(self).desktop == Some(d),
            final(self).same_frame(old(self)),
            final(self).layout == old(self).layout,
            window_list(final(self).windows) == window_list(old(self).windows),
            final(self).cursor_x == old(self).cursor_x && final(self).cursor_y == old(self).cursor_y,
            final(self).drag_wid == old(self).drag_wid && final(self).drag_ox == old(self).drag_ox && final(self).drag_oy == old(self).drag_oy,
    {
        self.desktop = Some(d);
    }

    /// Advances the frame clock by one, wrapping at the top of `u64`; nothing else changes.
    /// (The easing animations that also move every frame are kept by the renderer.)
    pub fn tick(&mut self)
        ensures
            *final(self) == (Compositor {
                clock_tick: if old(self).clock_tick == u64::MAX { 0 } else { (old(self).clock_tick + 1) as u64 },
                ..*old(self)
            }),
    {
        self.clock_tick = self.clock_tick.wrapping_add(1);
    }

    /// Handles one event (see `dispatched`).
    pub fn dispatch(&mut self, e: Event)
        requires
            dispatch_ok(*old(self), e),
        ensures
            dispatched(*old(self), *final(self), e),
    {
        match e {
            Event::Mouse { x, y, dx, dy, buttons } => {
                self.cursor_x = x;
                self.cursor_y = y;
                if buttons & 1 != 0 {
                    if let Some(wid) = self.drag_wid {
                        self.layout.move_window(wid, x - self.drag_ox, y - self.drag_oy);
                    } else {
                        let ghost ws = self.layout.windows();
                        let hit = self.layout.slot_at(x, y);
                        if let Some(wid) = hit {
                            if let Some(r) = self.layout.rect_of(wid) {
                                if y >= r.y && y < r.y + TITLEBAR_H {
                                    self.drag_wid = Some(wid);
                                    self.drag_ox = x - r.x;
                                    self.drag_oy = y - r.y;
                                    self.layout.focus(wid);
                                }
                            }
                        }
                    }
                } else {
                    self.drag_wid = None;
                }
            },
            Event::Key { code, modifiers, pressed } => {
                if pressed && modifiers & 0x04 != 0 {
                    if code == 0x11 {
                        self.layout.cycle_mode();
                    } else if code == 0x13 {
                        self.close_focused();
                    }
                }
            },
            Event::Close { wid } => self.close_window(wid),
            _ => {},
        }
    }

    /// Closes window `wid`: takes it out of the layout and out of the window list.
    fn close_window(&mut self, wid: u32)
        requires
            old(self).layout.wf(),
            close_ok(old(self).layout, wid),
        ensures
            final(self).layout.wf(),
            final(self).same_frame(old(self)),
            final(self).desktop == old(self).desktop,
            final(self).layout.windows() == layout_without(old(self).layout.windows(), wid, old(self).layout.mode, old(self).layout.screen),
            final(self).layout.mode == old(self).layout.mode,
            final(self).layout.focused == old(self).layout.focused,
            window_list(final(self).windows) == without_window(window_list(old(self).windows), wid),
            final(self).cursor_x == old(self).cursor_x && final(self).cursor_y == old(self).cursor_y,
            final(self).drag_wid == old(self).drag_wid && final(self).drag_ox == old(self).drag_ox && final(self).drag_oy == old(self).drag_oy,
    {
        self.layout.remove(wid);
        let n = windows_len(&self.windows);
        let ghost ids = window_ids(self.windows);
        let mut i: usize = 0;
        while i < n && window_id_at(&self.windows, i) != wid
            invariant
                n == ids.len(),
                ids == window_ids(self.windows),
                i <= n,
                forall|j: int| 0 <= j < i ==> #[trigger] ids[j] != wid,
            decreases n - i,
        {
            i = i + 1;
        }
        proof {
            lemma_first_index(ids, wid, i as int);
        }
        if i < n {
            windows_remove(&mut self.windows, i);
        }
    }

    /// Closes the focused window, if a window is focused (id 0 means none).
    fn close_focused(&mut self)
        requires
            old(self).layout.wf(),
            old(self).layout.focused != 0 ==> close_ok(old(self).layout, old(self).layout.focused),
        ensures
            final(self).layout.wf(),
            final(self).same_frame(old(self)),
            final(self).desktop == old(self).desktop,
            old(self).layout.focused == 0 ==> final(self).layout == old(self).layout && window_list(final(self).windows) == window_list(old(self).windows),
            old(self).layout.focused != 0 ==> {
                &&& final(self).layout.windows() == layout_without(old(self).layout.windows(), old(self).layout.focused, old(self).layout.mode, old(self).layout.screen)
                &&& window_list(final(self).windows) == without_window(window_list(old(self).windows), old(self).layout.focused)
            },
            final(self).layout.mode == old(self).layout.mode,
            final(self).layout.focused == old(self).layout.focused,
            final(self).cursor_x == old(self).cursor_x && final(self).cursor_y == old(self).cursor_y,
            final(self).drag_wid == old(self).drag_wid && final(self).drag_ox == old(self).drag_ox && final(self).drag_oy == old(self).drag_oy,
    {
        let wid = self.layout.focused;
        if wid != 0 {
            self.close_window(wid);
        }
    }
}

/// Pressing the left button on a window's title bar, with nothing dragged, grabs that window
/// and brings it to the top: it becomes the focused and dragged window, keeps its
/// rectangle, stacks strictly above every other window, and so is the window found under
/// any point it covers (when no other window has its id).
pub proof fn law_grab_raises(b: Compositor, a: Compositor, x: i32, y: i32, dx: i32, dy: i32, buttons: u8, px: int, py: int)
    requires
        dispatched(b, a, Event::Mouse { x, y, dx, dy, buttons }),
        buttons & 1u8 != 0,
        b.drag_wid is None,
        grab_target(b.layout.windows(), x, y) is Some,
        max_z(b.layout.windows()) < 255,
        forall|j: int| 0 <= j < b.layout.windows().len() && j != grab_target(b.layout.windows(), x, y)->Some_0.1
            ==> #[trigger] b.layout.windows()[j].wid != grab_target(b.layout.windows(), x, y)->Some_0.0,
        b.layout.windows()[grab_target(b.layout.windows(), x, y)->Some_0.1].rect.spec_contains(px, py),
    ensures
        ({
            let (wid, k) = grab_target(b.layout.windows(), x, y)->Some_0;
            let ws = a.layout.windows();
            &&& a.layout.focused == wid
            &&& a.drag_wid == Some(wid)
            &&& ws.len() == b.layout.windows().len()
            &&& ws[k].wid == wid
            &&& ws[k].rect == b.layout.windows()[k].rect
            &&& forall|j: int| 0 <= j < ws.len() && j != k ==> #[trigger] ws[j].z < ws[k].z
            &&& hit_scan(ws, px, py, ws.len()).1 == Some(wid)
        }),
{
    let ws0 = b.layout.windows();
    let (wid, k) = grab_target(ws0, x, y)->Some_0;
    crate::wmc::layout::lemma_position_of_found(ws0, wid);
    let ws = a.layout.windows();
    assert forall|j: int| 0 <= j < ws.len() && j != k implies #[trigger] ws[j].z < ws[k].z by {
        crate::wmc::layout::lemma_max_z_bound(ws0, j);
    }
    crate::wmc::layout::law_focused_window_is_hit(ws0, wid, k, px, py);
}

} // verus!
