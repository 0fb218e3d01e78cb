use vstd::prelude::*;

verus! {

/// The base of the memory-mapped configuration space.
pub const ECAM_BASE: usize = 0xE000_0000;

/// The number of devices the device table holds.
pub const MAX_DEVICES: usize = 256;

/// The configuration-space address of register `offset` (rounded down to a dword) of
/// function `fun` of device `dev` on bus `bus`.
pub open spec fn cfg_addr_spec(bus: u8, dev: u8, fun: u8, offset: u16) -> usize {
    ECAM_BASE | ((bus as usize) << 20) | ((dev as usize) << 15) | ((fun as usize) << 12) | ((offset as usize) & 0xFFC)
}

pub fn cfg_addr(bus: u8, dev: u8, fun: u8, offset: u16) -> (a: usize)
    ensures
        a == cfg_addr_spec(bus, dev, fun, offset),
{
    ECAM_BASE | ((bus as usize) << 20) | ((dev as usize) << 15) | ((fun as usize) << 12) | ((offset as usize) & 0xFFC)
}

#[derive(Clone, Copy, Debug)]
pub struct PciDevice {
    pub bus: u8,
    pub dev: u8,
    pub fun: u8,
    pub vendor: u16,
    pub device: u16,
    pub class: u8,
    pub subclass: u8,
    pub prog_if: u8,
    pub bar0: u64,
}

/// Whether a base address register is the low half of a 64-bit one (bit 2 set).
pub open spec fn bar_is_64(bar0_lo: u32) -> bool {
    (bar0_lo / 4) % 2 == 1
}

pub fn bar0_is_64(bar0_lo: u32) -> (res: bool)
    ensures
        res == bar_is_64(bar0_lo),
{
    proof {
        assert((bar0_lo & 0x4 != 0) == ((bar0_lo / 4) % 2 == 1)) by (bit_vector);
    }
    bar0_lo & 0x4 != 0
}

/// A present function's entry, from its vendor/device register, its class/revision register
/// and its first base address register (with the high half, read when that register is
/// 64-bit): the four low flag bits of the address are dropped.
pub open spec fn device_of(bus: u8, dev: u8, fun: u8, vid_did: u32, class_rev: u32, bar0_lo: u32, bar0_hi: u32) -> PciDevice {
    PciDevice {
        bus,
        dev,
        fun,
        vendor: (vid_did % 65536) as u16,
        device: (vid_did / 65536) as u16,
        class: (class_rev / 16777216) as u8,
        subclass: ((class_rev / 65536) % 256) as u8,
        prog_if: ((class_rev / 256) % 256) as u8,
        bar0: if bar_is_64(bar0_lo) {
            (bar0_hi * 4294967296 + (bar0_lo - bar0_lo % 16)) as u64
        } else {
            (bar0_lo - bar0_lo % 16) as u64
        },
    }
}

/// Decodes a function's configuration registers; `None` when the vendor/device register
/// reads all ones (no function there).
pub fn decode_device(bus: u8, dev: u8, fun: u8, vid_did: u32, class_rev: u32, bar0_lo: u32, bar0_hi: u32) -> (res: Option<PciDevice>)
    ensures
        vid_did == 0xFFFF_FFFF ==> res is None,
        vid_did != 0xFFFF_FFFF ==> res == Some(device_of(bus, dev, fun, vid_did, class_rev, bar0_lo, bar0_hi)),
{
    if vid_did == 0xFFFF_FFFF {
        return None;
    }
    let lo = bar0_lo as u64;
    let hi = bar0_hi as u64;
    proof {
        assert(lo & !0xFu64 == lo - lo % 16 && (hi << 32u64) | (lo & !0xFu64) == hi * 4294967296 + (lo - lo % 16))
            by (bit_vector)
            requires hi < 4294967296, lo < 4294967296;
        assert((vid_did & 0xFFFF) == vid_did % 65536 && (vid_did >> 16u32) == vid_did / 65536
            && (class_rev >> 24u32) as u8 == (class_rev / 16777216) as u8
            && (class_rev >> 16u32) as u8 == ((class_rev / 65536) % 256) as u8
            && (class_rev >> 8u32) as u8 == ((class_rev / 256) % 256) as u8) by (bit_vector);
    }
    let bar0 = if bar0_is_64(bar0_lo) { (hi << 32) | (lo & !0xF) } else { lo & !0xF };
    Some(PciDevice {
        bus,
        dev,
        fun,
        vendor: (vid_did & 0xFFFF) as u16,
        device: (vid_did >> 16) as u16,
        class: (class_rev >> 24) as u8,
        subclass: (class_rev >> 16) as u8,
        prog_if: (class_rev >> 8) as u8,
        bar0,
    })
}

/// Whether a device is an NVMe controller (mass storage, non-volatile memory, NVMe).
pub open spec fn is_nvme(d: PciDevice) -> bool {
    d.class == 0x01 && d.subclass == 0x08 && d.prog_if == 0x02
}

/// The devices found by the bus scan, in scan order.
pub struct PciTable {
    devices: Vec<PciDevice>,
}

impl PciTable {
    pub closed spec fn view(&self) -> Seq<PciDevice> {
        self.devices@
    }

    pub fn new() -> (t: Self)
        ensures
            t@ == Seq::<PciDevice>::empty(),
    {
        PciTable { devices: Vec::new() }
    }

    /// Records a device; once the table is full further devices are dropped.
    pub fn add(&mut self, d: PciDevice)
        requires
            old(self)@.len() <= MAX_DEVICES,
        ensures
            old(self)@.len() < MAX_DEVICES ==> final(self)@ == old(self)@.push(d),
            old(self)@.len() >= MAX_DEVICES ==> final(self)@ == old(self)@,
    {
        if self.devices.len() < MAX_DEVICES {
            self.devices.push(d);
        }
    }

    /// The devices recorded so far.
    pub fn devices(&self) -> (res: &[PciDevice])
        ensures
            res@ == self@,
    {
        self.devices.as_slice()
    }

    /// The first base address of the first NVMe controller found, if any.
    pub fn find_nvme_bar0(&self) -> (res: Option<usize>)
        ensures
            res is None <==> forall|i: int| 0 <= i < self@.len() ==> !is_nvme(#[trigger] self@[i]),
            res matches Some(a) ==> exists|i: int|
                0 <= i < self@.len() && is_nvme(#[trigger] self@[i]) && a == self@[i].bar0 as usize
                && forall|j: int| 0 <= j < i ==> !is_nvme(#[trigger] self@[j]),
    {
        let mut i: usize = 0;
        while i < self.devices.len()
            invariant
                i <= self@.len(),
                forall|j: int| 0 <= j < i ==> !is_nvme(#[trigger] self@[j]),
            decreases self@.len() - i,
        {
            let d = self.devices[i];
            if d.class == 0x01 && d.subclass == 0x08 && d.prog_if == 0x02 {
                assert(is_nvme(self@[i as int]));
                return Some(d.bar0 as usize);
            }
            i = i + 1;
        }
        None
    }
}

/// A decoded function keeps its registers' fields whole: vendor and device make up the
/// vendor/device register; programming interface, subclass and class make up the top three
/// bytes of the class/revision register; the address is 16-byte aligned and is the first base
/// register (with the second above it when the first is 64-bit) less its four flag bits.
pub proof fn law_device_fields(bus: u8, dev: u8, fun: u8, vid_did: u32, class_rev: u32, bar0_lo: u32, bar0_hi: u32)
    ensures
        ({
            let d = device_of(bus, dev, fun, vid_did, class_rev, bar0_lo, bar0_hi);
            &&& d.bus == bus && d.dev == dev && d.fun == fun
            &&& d.vendor + 65536 * d.device == vid_did
            &&& d.prog_if + 256 * d.subclass + 65536 * d.class == class_rev / 256
            &&& d.bar0 % 16 == 0
            &&& d.bar0 + bar0_lo % 16 == bar0_lo + (if bar_is_64(bar0_lo) { bar0_hi * 4294967296 } else { 0 })
        }),
{
    let d = device_of(bus, dev, fun, vid_did, class_rev, bar0_lo, bar0_hi);
    assert(class_rev / 256 == (class_rev / 256) % 256 + 256 * ((class_rev / 65536) % 256) + 65536 * (class_rev / 16777216)) by (nonlinear_arith);
    assert(vid_did == vid_did % 65536 + 65536 * (vid_did / 65536)) by (nonlinear_arith);
    assert((bar0_hi * 4294967296 + (bar0_lo - bar0_lo % 16)) % 16 == 0) by (nonlinear_arith)
        requires
            bar0_lo - bar0_lo % 16 == 16 * (bar0_lo / 16);
    assert((bar0_lo - bar0_lo % 16) % 16 == 0) by (nonlinear_arith)
        requires
            bar0_lo - bar0_lo % 16 == 16 * (bar0_lo / 16);
    assert(bar0_hi * 4294967296 + (bar0_lo - bar0_lo % 16) <= u64::MAX) by (nonlinear_arith)
        requires
            bar0_hi < 4294967296,
            bar0_lo < 4294967296;
}

} // verus!
