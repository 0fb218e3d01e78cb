pub mod caps;
pub mod derivation;
pub mod pmm;
pub mod vmm;
