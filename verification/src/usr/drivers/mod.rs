pub mod bus;
pub mod libs;
pub mod nvme;
pub mod usb;
