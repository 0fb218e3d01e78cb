use vstd::prelude::*;
use crate::wmc::surface::{Canvas, Rect};
use crate::evp::event::Event;

verus! {

/// Something drawn on the desktop that can take events.
pub trait Widget {
    /// The widget's area.
    fn rect(&self) -> Rect;

    /// Takes an event; answers whether the widget used it.
    fn handle(&mut self, e: &Event) -> bool;

    /// Draws the widget at animation tick `tick`.
    fn draw(&self, c: &mut Canvas, tick: u64);
}

} // verus!
