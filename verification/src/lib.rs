pub mod cpu;
pub mod evp;
pub mod ipc;
pub mod mem;
pub mod sched;
pub mod usr;
pub mod wdg;
pub mod wmc;
