pub mod desktop;
pub mod widget;
