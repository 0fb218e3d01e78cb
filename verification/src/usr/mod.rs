pub mod drivers;
