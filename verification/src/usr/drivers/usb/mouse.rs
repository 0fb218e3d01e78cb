use vstd::prelude::*;

verus! {

/// A HID boot-protocol mouse report.
#[derive(Clone, Copy, Debug)]
pub struct MouseReport {
    pub buttons: u8,
    pub dx: i8,
    pub dy: i8,
    pub wheel: i8,
}

pub const BUTTON_LEFT: u8 = 1;
pub const BUTTON_RIGHT: u8 = 2;
pub const BUTTON_MIDDLE: u8 = 4;

pub const SCREEN_W: i32 = 1920;
pub const SCREEN_H: i32 = 1080;

/// `v` held to `lo..=hi`.
pub open spec fn clamp(v: int, lo: int, hi: int) -> int {
    if v < lo { lo } else if v > hi { hi } else { v }
}

/// The pointer state the mouse driver keeps: the cursor position and the buttons held.
pub struct MouseState {
    pub cursor_x: i32,
    pub cursor_y: i32,
    pub buttons: u8,
}

impl MouseState {
    /// The state at start: cursor at the top left corner, no button held.
    pub fn new() -> (m: Self)
        ensures
            m.cursor_x == 0 && m.cursor_y == 0 && m.buttons == 0,
    {
        MouseState { cursor_x: 0, cursor_y: 0, buttons: 0 }
    }
}

/// Starts the mouse driver; it needs no set-up.
pub fn start() {
}

/// Moves the cursor by the report's motion, held on the screen, and records its buttons.
pub fn on_report(m: &mut MouseState, r: &MouseReport)
    requires
        i32::MIN <= old(m).cursor_x + r.dx <= i32::MAX,
        i32::MIN <= old(m).cursor_y + r.dy <= i32::MAX,
    ensures
        final(m).cursor_x == clamp(old(m).cursor_x + r.dx, 0, SCREEN_W - 1),
        final(m).cursor_y == clamp(old(m).cursor_y + r.dy, 0, SCREEN_H - 1),
        final(m).buttons == r.buttons,
{
    m.cursor_x = clamp_i32(m.cursor_x + r.dx as i32, 0, SCREEN_W - 1);
    m.cursor_y = clamp_i32(m.cursor_y + r.dy as i32, 0, SCREEN_H - 1);
    m.buttons = r.buttons;
}

fn clamp_i32(v: i32, lo: i32, hi: i32) -> (r: i32)
    requires
        lo <= hi,
    ensures
        r == clamp(v as int, lo as int, hi as int),
{
    if v < lo {
        lo
    } else if v > hi {
        hi
    } else {
        v
    }
}

/// The cursor position.
pub fn cursor(m: &MouseState) -> (res: (i32, i32))
    ensures
        res == (m.cursor_x, m.cursor_y),
{
    (m.cursor_x, m.cursor_y)
}

/// The buttons held in the last report.
pub fn buttons(m: &MouseState) -> (res: u8)
    ensures
        res == m.buttons,
{
    m.buttons
}

/// The cursor never leaves the screen: whatever the state and the motion, after a report it
/// lies in columns 0..1920 and rows 0..1080, moved by exactly the report's motion when that
/// keeps it on the screen.
pub proof fn law_cursor_on_screen(x: int, y: int, dx: int, dy: int)
    ensures
        0 <= clamp(x + dx, 0, SCREEN_W - 1) < 1920,
        0 <= clamp(y + dy, 0, SCREEN_H - 1) < 1080,
        0 <= x + dx < 1920 ==> clamp(x + dx, 0, SCREEN_W - 1) == x + dx,
        0 <= y + dy < 1080 ==> clamp(y + dy, 0, SCREEN_H - 1) == y + dy,
        x + dx < 0 ==> clamp(x + dx, 0, SCREEN_W - 1) == 0,
        x + dx >= 1920 ==> clamp(x + dx, 0, SCREEN_W - 1) == 1919,
{
}

} // verus!
