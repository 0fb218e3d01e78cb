pub mod bore;
pub mod order;
