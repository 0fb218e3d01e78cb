use vstd::prelude::*;

verus! {

/// USB descriptor types.
#[derive(Debug, Clone, Copy, PartialEq, Eq, Structural)]
pub enum DescType {
    Device,
    Config,
    String,
    Interface,
    Endpoint,
    DeviceQual,
    HidClass,
    HidReport,
}

/// The type code each descriptor type has on the wire.
pub open spec fn desc_code(t: DescType) -> u8 {
    match t {
        DescType::Device => 0x01,
        DescType::Config => 0x02,
        DescType::String => 0x03,
        DescType::Interface => 0x04,
        DescType::Endpoint => 0x05,
        DescType::DeviceQual => 0x06,
        DescType::HidClass => 0x21,
        DescType::HidReport => 0x22,
    }
}

pub struct DescHeader {
    pub length: u8,
    pub desc_type: u8,
}

pub struct DeviceDesc {
    pub length: u8,
    pub desc_type: u8,
    pub bcd_usb: u16,
    pub device_class: u8,
    pub device_subclass: u8,
    pub device_protocol: u8,
    pub max_packet_size: u8,
    pub vendor_id: u16,
    pub product_id: u16,
    pub bcd_device: u16,
    pub manufacturer: u8,
    pub product: u8,
    pub serial_number: u8,
    pub num_configs: u8,
}

pub const HID_CLASS: u8 = 0x03;
pub const HID_SUBCLASS_BOOT: u8 = 0x01;
pub const HID_PROTO_KEYBOARD: u8 = 0x01;
pub const HID_PROTO_MOUSE: u8 = 0x02;

/// The type of the descriptor in `buf`, from its second byte. Only the device,
/// configuration, string, interface, endpoint and HID class types are recognised; a buffer
/// shorter than two bytes has none.
pub fn parse_header(buf: &[u8]) -> (res: Option<DescType>)
    ensures
        buf@.len() < 2 ==> res is None,
        buf@.len() >= 2 ==> res == (match buf@[1] {
            0x01 => Some(DescType::Device),
            0x02 => Some(DescType::Config),
            0x03 => Some(DescType::String),
            0x04 => Some(DescType::Interface),
            0x05 => Some(DescType::Endpoint),
            0x21 => Some(DescType::HidClass),
            _ => None,
        }),
        res matches Some(t) ==> desc_code(t) == buf@[1],
{
    if buf.len() < 2 {
        return None;
    }
    match buf[1] {
        0x01 => Some(DescType::Device),
        0x02 => Some(DescType::Config),
        0x03 => Some(DescType::String),
        0x04 => Some(DescType::Interface),
        0x05 => Some(DescType::Endpoint),
        0x21 => Some(DescType::HidClass),
        _ => None,
    }
}

} // verus!
