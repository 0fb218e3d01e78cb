pub mod animate;
pub mod compositor;
pub mod layout;
pub mod paint;
pub mod surface;
pub mod theme;
