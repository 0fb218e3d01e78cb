pub mod cache;
pub mod cores;
