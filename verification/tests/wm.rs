use sane::evp::event::Event;
use sane::evp::pump::{EventPump, PUMP_CAPACITY};
use sane::wdg::desktop::Desktop;
use sane::wmc::compositor::{Compositor, Window, WindowState};
use sane::wmc::layout::{Layout, LayoutMode, WindowSlot};
use sane::wmc::paint::{draw_char_pixel, draw_text_pixel, window_fits};
use sane::wmc::surface::{Canvas, Rect};
use sane::wmc::theme::{Color, Palette};

const WHITE_ON_BLACK: u32 = 0xFFFE_FEFE;

fn canvas(w: usize, h: usize) -> Canvas {
    Canvas { pixels: vec![0; w * h], stride: w, width: w, height: h }
}

fn at(c: &Canvas, x: usize, y: usize) -> u32 {
    c.pixels[y * c.stride + x]
}

fn rect(x: i32, y: i32, w: u16, h: u16) -> Rect {
    Rect { x, y, w, h }
}

fn window(wid: u32) -> Window {
    Window { wid, title: [0; 32], title_len: 0, state: WindowState::Normal, buf_w: 400, buf_h: 300 }
}

fn key(code: u8) -> Event {
    Event::Key { code, modifiers: 0x04, pressed: true }
}

fn mouse(x: i32, y: i32, buttons: u8) -> Event {
    Event::Mouse { x, y, dx: 0, dy: 0, buttons }
}

#[test]
fn colour_channels() {
    let c = Color::rgba(0x11, 0x22, 0x33, 0x44);
    assert_eq!(c.0, 0x4411_2233);
    assert_eq!((c.r(), c.g(), c.b(), c.a()), (0x11, 0x22, 0x33, 0x44));
    assert_eq!(Palette::accent().0, Palette::accent().0);
}

#[test]
fn colour_mixing_scales_by_256() {
    let black = Color(0xFF00_0000);
    let white = Color(0xFFFF_FFFF);
    assert_eq!(black.lerp(white, 255).0, 0xFEFE_FEFE);
    assert_eq!(white.lerp(black, 0).0, 0xFEFE_FEFE);
    assert_eq!(black.lerp(white, 128).0, 0xFE7F_7F7F);
    let half_red = Color(0x80FF_0000);
    let blue = Color(0xFF00_00FF);
    assert_eq!(half_red.alpha_blend(blue).0, 0xFF7F_007E);
    assert_eq!(Color(0x00FF_FFFF).alpha_blend(blue).0, 0xFF00_00FE);
}

#[test]
fn rectangles() {
    let r = rect(10, 20, 5, 5);
    assert!(r.contains(10, 20));
    assert!(r.contains(14, 24));
    assert!(!r.contains(15, 20));
    assert!(!r.contains(10, 25));
    assert!(r.intersects(&rect(14, 24, 10, 10)));
    assert!(!r.intersects(&rect(15, 20, 10, 10)));
    assert_eq!(r.shrink(1), rect(11, 21, 3, 3));
    assert_eq!(r.shrink(3), rect(13, 23, 0, 0));
}

#[test]
fn solid_and_blended_fills() {
    let mut c = canvas(4, 4);
    c.fill_rect_solid(rect(1, 1, 2, 2), Color(0xFF11_2233));
    assert_eq!(at(&c, 1, 1), 0xFF11_2233);
    assert_eq!(at(&c, 2, 2), 0xFF11_2233);
    assert_eq!(at(&c, 0, 0), 0);
    assert_eq!(at(&c, 3, 1), 0);
    let mut c = canvas(4, 4);
    c.fill_rect(rect(-1, -1, 3, 3), Color(0xFF11_2233));
    assert_eq!(at(&c, 0, 0), 0xFF10_2132);
    assert_eq!(at(&c, 1, 1), 0xFF10_2132);
    assert_eq!(at(&c, 2, 0), 0);
    assert_eq!(at(&c, 0, 2), 0);
}

#[test]
fn lines_and_points_are_clipped() {
    let mut c = canvas(4, 4);
    c.draw_hline(-5, 2, 3, Color(0xFFFF_FFFF));
    assert_eq!(at(&c, 0, 3), WHITE_ON_BLACK);
    assert_eq!(at(&c, 1, 3), WHITE_ON_BLACK);
    assert_eq!(at(&c, 2, 3), 0);
    c.draw_vline(3, 0, 100, Color(0xFFFF_FFFF));
    assert_eq!(at(&c, 3, 0), WHITE_ON_BLACK);
    assert_eq!(at(&c, 3, 3), WHITE_ON_BLACK);
    let before = c.pixels.clone();
    c.put(4, 0, Color(0xFFFF_FFFF));
    c.put(-1, 2, Color(0xFFFF_FFFF));
    assert_eq!(c.pixels, before);
    c.put(0, 0, Color(0xFFFF_FFFF));
    assert_eq!(at(&c, 0, 0), WHITE_ON_BLACK);
}

#[test]
fn small_disk() {
    let mut c = canvas(5, 5);
    c.fill_circle(2, 2, 1, Color(0xFFFF_FFFF));
    let lit: Vec<(usize, usize)> =
        (0..25).filter(|i| c.pixels[*i] != 0).map(|i| (i % 5, i / 5)).collect();
    assert_eq!(lit, vec![(2, 1), (1, 2), (2, 2), (3, 2), (2, 3)]);
}

#[test]
fn glyph_a_at_scale_one() {
    let mut c = canvas(6, 8);
    draw_char_pixel(&mut c, 0, 0, b'A', Color(0xFFFF_FFFF), 1);
    let rows = ["..#..", ".#.#.", "#...#", "#...#", "#####", "#...#", "#...#"];
    for (y, row) in rows.iter().enumerate() {
        for (x, ch) in row.chars().enumerate() {
            let want = if ch == '#' { WHITE_ON_BLACK } else { 0 };
            assert_eq!(at(&c, x, y), want, "pixel ({}, {})", x, y);
        }
        assert_eq!(at(&c, 5, y), 0);
    }
    assert!((0..6).all(|x| at(&c, x, 7) == 0));
}

#[test]
fn glyph_at_scale_two_and_unprintable() {
    let mut c = canvas(10, 14);
    draw_char_pixel(&mut c, 0, 0, b'H', Color(0xFFFF_FFFF), 2);
    assert_eq!(at(&c, 0, 0), WHITE_ON_BLACK);
    assert_eq!(at(&c, 1, 1), WHITE_ON_BLACK);
    assert_eq!(at(&c, 2, 0), 0);
    assert_eq!(at(&c, 4, 6), WHITE_ON_BLACK);
    assert_eq!(at(&c, 9, 13), WHITE_ON_BLACK);
    let mut d = canvas(6, 8);
    draw_char_pixel(&mut d, 0, 0, 0x07, Color(0xFFFF_FFFF), 1);
    assert!(d.pixels.iter().all(|p| *p == 0));
}

#[test]
fn text_advances_six_pixels_per_character() {
    let mut c = canvas(12, 7);
    draw_text_pixel(&mut c, 0, 0, b"HA", Color(0xFFFF_FFFF), 1);
    assert_eq!(at(&c, 0, 0), WHITE_ON_BLACK);
    assert_eq!(at(&c, 5, 0), 0);
    assert_eq!(at(&c, 6, 0), 0);
    assert_eq!(at(&c, 8, 0), WHITE_ON_BLACK);
    assert_eq!(at(&c, 6, 4), WHITE_ON_BLACK);
}

#[test]
fn layout_modes_tile_the_screen() {
    let mut l = Layout::new(1920, 1080);
    assert_eq!(l.screen, rect(0, 30, 1920, 1050));
    l.insert(1, rect(10, 40, 100, 100));
    l.insert(2, rect(50, 80, 100, 100));
    l.insert(3, rect(90, 120, 100, 100));
    assert_eq!(l.focused, 3);
    assert_eq!(l.rect_of(2), Some(rect(50, 80, 100, 100)));
    l.cycle_mode();
    assert_eq!(l.mode, LayoutMode::TileH);
    assert_eq!(l.rect_of(1), Some(rect(0, 30, 640, 1050)));
    assert_eq!(l.rect_of(3), Some(rect(1280, 30, 640, 1050)));
    l.cycle_mode();
    assert_eq!(l.mode, LayoutMode::TileV);
    assert_eq!(l.rect_of(2), Some(rect(0, 380, 1920, 350)));
    l.cycle_mode();
    assert_eq!(l.mode, LayoutMode::Monocle);
    assert_eq!(l.rect_of(3), Some(rect(0, 30, 1920, 1050)));
    l.cycle_mode();
    assert_eq!(l.mode, LayoutMode::Spiral);
    assert_eq!(l.rect_of(1), Some(rect(0, 30, 960, 1050)));
    assert_eq!(l.rect_of(2), Some(rect(960, 30, 960, 525)));
    assert_eq!(l.rect_of(3), Some(rect(960, 555, 960, 525)));
    l.cycle_mode();
    assert_eq!(l.mode, LayoutMode::Floating);
    assert_eq!(l.rect_of(3), Some(rect(960, 555, 960, 525)));
}

#[test]
fn layout_remove_and_hit_testing() {
    let mut l = Layout::new(800, 630);
    l.insert(1, rect(0, 30, 300, 300));
    l.insert(2, rect(100, 130, 300, 300));
    assert_eq!(l.slot_at(150, 150), Some(2));
    assert_eq!(l.slot_at(50, 50), Some(1));
    assert_eq!(l.slot_at(700, 500), None);
    l.focus(1);
    assert_eq!(l.focused, 1);
    assert_eq!(l.slot_at(150, 150), Some(1));
    let order: Vec<u32> = l.sorted_slots().iter().map(|s| s.wid).collect();
    assert_eq!(order, vec![2, 1]);
    l.move_window(2, 500, 300);
    assert_eq!(l.rect_of(2), Some(rect(500, 300, 300, 300)));
    l.remove(1);
    assert_eq!(l.count, 1);
    assert_eq!(l.rect_of(1), None);
    assert_eq!(l.focused, 1);
    l.remove(9);
    assert_eq!(l.count, 1);
    l.insert(3, rect(0, 30, 10, 10));
    l.cycle_mode();
    assert_eq!(l.rect_of(2), Some(rect(0, 30, 400, 600)));
    assert_eq!(l.rect_of(3), Some(rect(400, 30, 400, 600)));
    l.remove(2);
    assert_eq!(l.rect_of(3), Some(rect(0, 30, 800, 600)));
}

#[test]
fn full_layout_ignores_insert() {
    let mut l = Layout::new(800, 630);
    for wid in 1..=32 {
        l.insert(wid, rect(0, 30, 10, 10));
    }
    assert_eq!(l.count, 32);
    l.insert(99, rect(0, 30, 10, 10));
    assert_eq!(l.count, 32);
    assert_eq!(l.focused, 32);
    assert_eq!(l.rect_of(99), None);
}

#[test]
fn compositor_drag_and_keys() {
    let mut c = Compositor::new(1920, 1080);
    assert_eq!((c.cursor_x, c.cursor_y, c.next_wid), (960, 540, 1));
    c.push_workspace(Desktop::new());
    assert_eq!(c.desktop.map(|d| (d.screen_w, d.screen_h)), Some((1920, 1080)));
    c.layout.insert(1, rect(100, 100, 400, 300));
    c.windows.push(window(1));
    c.layout.insert(2, rect(1000, 100, 400, 300));
    c.windows.push(window(2));
    // press on window 1's title bar: grab and focus it
    c.dispatch(mouse(150, 110, 1));
    assert_eq!((c.cursor_x, c.cursor_y), (150, 110));
    assert_eq!(c.drag_wid, Some(1));
    assert_eq!((c.drag_ox, c.drag_oy), (50, 10));
    assert_eq!(c.layout.focused, 1);
    c.dispatch(mouse(250, 210, 1));
    assert_eq!(c.layout.rect_of(1), Some(rect(200, 200, 400, 300)));
    c.dispatch(mouse(250, 210, 0));
    assert_eq!(c.drag_wid, None);
    // a press inside a window but below its title bar grabs nothing
    c.dispatch(mouse(1100, 300, 1));
    assert_eq!(c.drag_wid, None);
    assert_eq!(c.layout.focused, 1);
    c.dispatch(mouse(0, 0, 0));
    // Super+W: next mode
    c.dispatch(key(0x11));
    assert_eq!(c.layout.mode, LayoutMode::TileH);
    assert_eq!(c.layout.rect_of(2), Some(rect(960, 30, 960, 1050)));
    // without Super nothing happens
    c.dispatch(Event::Key { code: 0x11, modifiers: 0, pressed: true });
    assert_eq!(c.layout.mode, LayoutMode::TileH);
    // Super+Q: close the focused window
    c.dispatch(key(0x13));
    assert_eq!(c.layout.count, 1);
    assert_eq!(c.layout.rect_of(1), None);
    assert_eq!(c.layout.rect_of(2), Some(rect(0, 30, 1920, 1050)));
    assert_eq!(c.windows.len(), 1);
    assert_eq!(c.windows[0].wid, 2);
    c.dispatch(Event::Close { wid: 7 });
    assert_eq!(c.windows.len(), 1);
    c.dispatch(Event::Close { wid: 2 });
    assert_eq!(c.windows.len(), 0);
    assert_eq!(c.layout.count, 0);
    c.dispatch(Event::Tick);
    c.dispatch(Event::Wheel { delta: 1 });
    assert_eq!((c.cursor_x, c.cursor_y), (0, 0));
}

#[test]
fn pump_hands_events_over_in_order() {
    let mut c = Compositor::new(1920, 1080);
    c.layout.insert(1, rect(100, 100, 400, 300));
    c.windows.push(window(1));
    let mut p = EventPump::new();
    p.push(mouse(10, 20, 0));
    p.push(key(0x11));
    p.push(Event::Close { wid: 1 });
    p.drain(&mut c);
    assert_eq!((c.cursor_x, c.cursor_y), (10, 20));
    assert_eq!(c.layout.mode, LayoutMode::TileH);
    assert_eq!(c.windows.len(), 0);
    // an empty pump changes nothing
    p.drain(&mut c);
    assert_eq!(c.layout.mode, LayoutMode::TileH);
}

#[test]
fn full_pump_drops_events() {
    let mut c = Compositor::new(1920, 1080);
    c.layout.insert(1, rect(100, 100, 400, 300));
    c.windows.push(window(1));
    let mut p = EventPump::new();
    for _ in 0..PUMP_CAPACITY {
        p.push(Event::Tick);
    }
    p.push(Event::Close { wid: 1 });
    p.drain(&mut c);
    assert_eq!(c.windows.len(), 1);
    assert_eq!(c.layout.count, 1);
}

#[test]
fn clock_tick_wraps() {
    let mut c = Compositor::new(640, 480);
    c.tick();
    assert_eq!(c.clock_tick, 1);
    c.clock_tick = u64::MAX;
    c.tick();
    assert_eq!(c.clock_tick, 0);
    assert_eq!((c.cursor_x, c.cursor_y), (320, 240));
}

fn screen(w: usize, h: usize) -> Canvas {
    Canvas { pixels: (0..w * h).map(|i| 0xFF00_0000 | i as u32).collect(), stride: w, width: w, height: h }
}

#[test]
fn render_draws_stars_bar_frames_and_cursor_in_order() {
    let mut c = Compositor::new(200, 150);
    c.clock_tick = 130;
    c.cursor_x = 60;
    c.cursor_y = 70;
    c.layout.insert(1, rect(20, 40, 100, 60));
    c.windows.push(window(1));
    c.layout.insert(2, rect(90, 60, 80, 50));
    c.windows.push(window(2));
    c.layout.focus(1);
    let waves: Vec<u8> = (0..200).map(|x| (x % 16) as u8).collect();
    let mut got = screen(200, 150);
    c.render(&mut got, &waves, -3);
    let mut want = screen(200, 150);
    c.draw_stars(&mut want);
    c.draw_topbar(&mut want, &waves);
    c.draw_window_frame(&mut want, 2, rect(90, 60, 80, 50), false, -3);
    c.draw_window_frame(&mut want, 1, rect(20, 40, 100, 60), true, -3);
    c.draw_cursor(&mut want);
    assert!(got.pixels == want.pixels);
    let mut other_order = screen(200, 150);
    c.draw_stars(&mut other_order);
    c.draw_topbar(&mut other_order, &waves);
    c.draw_window_frame(&mut other_order, 1, rect(20, 40, 100, 60), true, -3);
    c.draw_window_frame(&mut other_order, 2, rect(90, 60, 80, 50), false, -3);
    c.draw_cursor(&mut other_order);
    assert!(got.pixels != other_order.pixels);
}

#[test]
fn which_frames_fit_the_canvas() {
    let slot = |r: Rect| WindowSlot { wid: 1, rect: r, z: 0, pinned: false };
    assert!(window_fits(slot(rect(20, 40, 100, 60)), 1, -3, 200, 150));
    assert!(window_fits(slot(rect(20, 40, 100, 60)), 2, 5, 200, 150));
    // empty rectangles draw nothing
    assert!(window_fits(slot(rect(20, 40, 0, 60)), 1, 0, 200, 150));
    // too short for a content area
    assert!(!window_fits(slot(rect(20, 40, 100, 27)), 1, 0, 200, 150));
    // reaching past the right edge of i32
    assert!(!window_fits(slot(rect(i32::MAX - 50, 40, 100, 60)), 1, 0, 200, 150));
}

#[test]
fn closing_keeps_the_other_windows_whole() {
    let mut c = Compositor::new(1920, 1080);
    let mut w2 = window(2);
    w2.title[0] = b'x';
    w2.title_len = 1;
    w2.state = WindowState::Maximised;
    c.windows.push(window(1));
    c.windows.push(w2);
    c.layout.insert(1, rect(100, 100, 400, 300));
    c.layout.insert(2, rect(600, 100, 400, 300));
    c.dispatch(Event::Close { wid: 1 });
    assert_eq!(c.windows.len(), 1);
    let w = c.windows[0];
    assert_eq!((w.wid, w.title[0], w.title_len, w.state, w.buf_w, w.buf_h), (2, b'x', 1, WindowState::Maximised, 400, 300));
}

#[test]
fn tiling_near_the_top_of_i32() {
    let mut l = Layout::new(800, 630);
    l.screen = rect(i32::MAX - 600, 30, 1000, 500);
    l.insert(1, rect(0, 30, 10, 10));
    assert_eq!(l.rect_of(1), Some(rect(0, 30, 10, 10)));
    l.cycle_mode();
    assert_eq!(l.mode, LayoutMode::TileH);
    assert_eq!(l.rect_of(1), Some(rect(i32::MAX - 600, 30, 1000, 500)));
    l.insert(2, rect(0, 30, 10, 10));
    assert_eq!(l.rect_of(2), Some(rect(i32::MAX - 100, 30, 500, 500)));
    l.mode = LayoutMode::Monocle;
    l.retile();
    assert_eq!(l.rect_of(2), Some(rect(i32::MAX - 600, 30, 1000, 500)));
    l.mode = LayoutMode::Spiral;
    l.retile();
    assert_eq!(l.rect_of(1), Some(rect(i32::MAX - 600, 30, 500, 500)));
    assert_eq!(l.rect_of(2), Some(rect(i32::MAX - 100, 30, 500, 500)));
    l.remove(1);
    assert_eq!(l.rect_of(2), Some(rect(i32::MAX - 600, 30, 1000, 500)));
}

#[test]
fn hit_testing_only_adds_edges_it_needs() {
    let mut l = Layout::new(800, 630);
    l.insert(1, rect(i32::MAX - 10, 30, 100, 100));
    l.insert(2, rect(0, i32::MAX - 10, 100, 100));
    assert_eq!(l.slot_at(5, 40), None);
    let r = rect(i32::MAX - 10, 30, 100, 100);
    assert!(!r.contains(5, 40));
    assert!(!r.contains(i32::MAX - 5, 20));
    let s = rect(0, 0, 10, 10);
    assert!(!s.intersects(&rect(i32::MAX - 5, 0, 3, 3)));
    assert!(s.intersects(&rect(5, 5, 10, 10)));
}
