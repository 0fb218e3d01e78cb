pub mod pci;
pub mod xhci;
