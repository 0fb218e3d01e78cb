use vstd::prelude::*;

verus! {

/// The desktop workspace and the screen size it covers.
#[derive(Clone, Copy, Debug)]
pub struct Desktop {
    pub screen_w: u16,
    pub screen_h: u16,
}

impl Desktop {
    /// A desktop for a 1920 by 1080 screen.
    pub fn new() -> (d: Self)
        ensures
            d.screen_w == 1920 && d.screen_h == 1080,
    {
        Desktop { screen_w: 1920, screen_h: 1080 }
    }
}

} // verus!
