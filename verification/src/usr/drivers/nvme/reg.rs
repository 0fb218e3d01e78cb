use vstd::prelude::*;

verus! {

pub const CAP: usize = 0x00;
pub const VS: usize = 0x08;
pub const INTMS: usize = 0x0C;
pub const INTMC: usize = 0x10;
pub const CC: usize = 0x14;
pub const CSTS: usize = 0x1C;
pub const NSSR: usize = 0x20;
pub const AQA: usize = 0x24;
pub const ASQ: usize = 0x28;
pub const ACQ: usize = 0x30;

pub const CC_EN: u32 = 1;
pub const CC_CSS_NVM: u32 = 0;
pub const CC_MPS_4K: u32 = 0;
pub const CC_AMS_RR: u32 = 0;
pub const CC_IOSQES: u32 = 0x60000;
pub const CC_IOCQES: u32 = 0x400000;
pub const CSTS_RDY: u32 = 1;
pub const CSTS_CFS: u32 = 2;

} // verus!
