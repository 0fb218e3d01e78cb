pub mod keyboard;
pub mod mouse;
