pub mod event;
pub mod pump;
