pub mod usb;
