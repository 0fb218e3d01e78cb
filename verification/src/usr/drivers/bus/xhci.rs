use vstd::prelude::*;

verus! {

pub const CAPLENGTH: usize = 0x00;
pub const HCSPARAMS1: usize = 0x04;
pub const HCSPARAMS2: usize = 0x08;
pub const HCCPARAMS1: usize = 0x10;
pub const DBOFF: usize = 0x14;
pub const RTSOFF: usize = 0x18;
pub const USBCMD: usize = 0x00;
pub const USBSTS: usize = 0x04;
pub const PAGESIZE: usize = 0x08;
pub const DNCTRL: usize = 0x14;
pub const CRCR: usize = 0x18;
pub const DCBAAP: usize = 0x30;
pub const CONFIG: usize = 0x38;
pub const USBCMD_RUN: u32 = 1;
pub const USBCMD_HCRST: u32 = 2;
pub const USBSTS_HCH: u32 = 1;

pub struct XhciController {
    pub cap_base: usize,
    pub op_base: usize,
    pub max_slots: u8,
    pub max_ports: u8,
}

impl XhciController {
    /// The controller at `bar0`, from its capability length register and its first
    /// structural parameters register: operational registers follow the capability
    /// registers; slots are in bits 0..8 and ports in bits 24..32 of the parameters.
    pub fn from_registers(bar0: usize, cap_len: u8, params1: u32) -> (x: Self)
        requires
            bar0 + cap_len <= usize::MAX,
        ensures
            x.cap_base == bar0,
            x.op_base == bar0 + cap_len,
            x.max_slots == params1 % 256,
            x.max_ports == params1 / 16777216,
    {
        proof {
            assert(params1 & 0xFF == params1 % 256 && (params1 >> 24u32) & 0xFF == params1 / 16777216) by (bit_vector);
        }
        XhciController {
            cap_base: bar0,
            op_base: bar0 + cap_len as usize,
            max_slots: (params1 & 0xFF) as u8,
            max_ports: ((params1 >> 24) & 0xFF) as u8,
        }
    }
}

} // verus!
