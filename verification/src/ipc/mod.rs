pub mod cspace;
pub mod fastpath;
pub mod shared;
