pub mod cores;
