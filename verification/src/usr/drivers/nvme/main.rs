use vstd::prelude::*;
use crate::usr::drivers::nvme::queue::SqEntry;
use crate::usr::drivers::nvme::reg::{CC, AQA, ASQ, ACQ, CC_EN, CC_CSS_NVM, CC_MPS_4K, CC_IOSQES, CC_IOCQES, CSTS_RDY};

verus! {

pub const IO_READ: u8 = 0x02;
pub const IO_WRITE: u8 = 0x01;

/// The read command for `count` blocks from block `lba` of namespace `nsid` into the buffer
/// at `buf_phys`: opcode in the low byte of dword 0, command id 1 above it, the block
/// number split over dwords 10 and 11, and the count less one in dword 12.
pub fn read_command(nsid: u32, lba: u64, count: u16, buf_phys: u64) -> (cmd: SqEntry)
    requires
        count >= 1,
    ensures
        cmd.cdw0 == IO_READ + 65536,
        cmd.nsid == nsid,
        cmd.cdw2 == 0 && cmd.cdw3 == 0 && cmd.mptr == 0,
        cmd.dptr@ == seq![buf_phys, 0u64],
        cmd.cdw10 == lba % 4294967296,
        cmd.cdw11 == lba / 4294967296,
        cmd.cdw12 == count - 1,
        cmd.cdw13 == 0 && cmd.cdw14 == 0 && cmd.cdw15 == 0,
{
    proof {
        assert((lba >> 32u64) as u32 == lba / 4294967296 && lba as u32 == lba % 4294967296) by (bit_vector);
        assert((IO_READ as u32) | (1u32 << 16u32) == 2 + 65536) by (bit_vector);
    }
    let dptr: [u64; 2] = [buf_phys, 0];
    SqEntry {
        cdw0: (IO_READ as u32) | (1u32 << 16),
        nsid,
        cdw2: 0,
        cdw3: 0,
        mptr: 0,
        dptr,
        cdw10: lba as u32,
        cdw11: (lba >> 32) as u32,
        cdw12: (count as u32) - 1,
        cdw13: 0,
        cdw14: 0,
        cdw15: 0,
    }
}

/// The doorbell register of queue `qid`: submission and completion doorbells alternate,
/// four bytes apart, from offset 0x1000.
pub fn doorbell(base: usize, qid: usize, completion: bool) -> (a: usize)
    requires
        base + 0x1000 + (2 * qid + 1) * 4 <= usize::MAX,
    ensures
        a == base + 0x1000 + (2 * qid + (if completion { 1int } else { 0int })) * 4,
{
    base + 0x1000 + (2 * qid + if completion { 1 } else { 0 }) * 4
}

/// One step of bringing the controller up, for the driver to carry out on the hardware.
#[derive(Clone, Copy, Debug, PartialEq, Eq, Structural)]
pub enum InitAction {
    /// Write `value` to the 32-bit register at `offset` from the controller's base.
    Write32 { offset: usize, value: u32 },
    /// Read the status register until its ready bit is set (`want`) or clear (`!want`),
    /// giving up after `polls` reads.
    WaitReady { want: bool, polls: u32 },
}

/// The ready timeout of the controller, in 500 ms units: bits 24..32 of its capabilities.
pub fn ready_timeout(cap: u64) -> (to: u32)
    ensures
        to == (cap / 16777216) % 256,
{
    proof {
        assert((cap >> 24u64) & 0xFF == (cap / 16777216) % 256) by (bit_vector);
    }
    ((cap >> 24) & 0xFF) as u32
}

/// Whether the status register value `csts` shows the ready state `want`.
pub fn ready_reached(csts: u32, want: bool) -> (res: bool)
    ensures
        res == ((csts % 2 == 1) == want),
{
    proof {
        assert((csts & CSTS_RDY != 0) == (csts % 2 == 1)) by (bit_vector);
    }
    (csts & CSTS_RDY != 0) == want
}

/// The number of status reads a wait with timeout `to` allows: a thousand per unit.
pub open spec fn wait_polls(to: u32) -> u32 {
    (to * 1000) as u32
}

/// Disabling the controller: clear its configuration, then wait for it to report not ready.
pub fn disable_sequence(to: u32) -> (acts: Vec<InitAction>)
    requires
        to <= 255,
    ensures
        acts@ == seq![
            InitAction::Write32 { offset: CC, value: 0 },
            InitAction::WaitReady { want: false, polls: wait_polls(to) },
        ],
{
    let mut acts: Vec<InitAction> = Vec::new();
    acts.push(InitAction::Write32 { offset: CC, value: 0 });
    acts.push(InitAction::WaitReady { want: false, polls: to * 1000 });
    acts
}

/// The configuration that enables the controller: NVM command set, 4 KiB pages, 64-byte
/// submission and 16-byte completion entries.
pub open spec fn enable_config() -> u32 {
    (CC_EN | CC_CSS_NVM | CC_MPS_4K | CC_IOSQES | CC_IOCQES) as u32
}

/// Enabling the controller on admin queues at `asq` and `acq` (64 entries each): their sizes,
/// their addresses (each as its low then its high half), the configuration, then the wait for
/// the controller to report ready.
pub fn enable_sequence(to: u32, asq: u64, acq: u64) -> (acts: Vec<InitAction>)
    requires
        to <= 255,
    ensures
        acts@ == seq![
            InitAction::Write32 { offset: AQA, value: (63 * 65536 + 63) as u32 },
            InitAction::Write32 { offset: ASQ, value: (asq % 4294967296) as u32 },
            InitAction::Write32 { offset: (ASQ + 4) as usize, value: (asq / 4294967296) as u32 },
            InitAction::Write32 { offset: ACQ, value: (acq % 4294967296) as u32 },
            InitAction::Write32 { offset: (ACQ + 4) as usize, value: (acq / 4294967296) as u32 },
            InitAction::Write32 { offset: CC, value: enable_config() },
            InitAction::WaitReady { want: true, polls: wait_polls(to) },
        ],
        enable_config() == 0x46_0001,
{
    let mut acts: Vec<InitAction> = Vec::new();
    proof {
        assert((63u32 << 16u32) | 63 == 63 * 65536 + 63
            && asq & 0xFFFF_FFFF == asq % 4294967296 && asq >> 32u64 == asq / 4294967296
            && acq & 0xFFFF_FFFF == acq % 4294967296 && acq >> 32u64 == acq / 4294967296
            && (CC_EN | CC_CSS_NVM | CC_MPS_4K | CC_IOSQES | CC_IOCQES) == 0x46_0001) by (bit_vector);
    }
    acts.push(InitAction::Write32 { offset: AQA, value: (63u32 << 16) | 63 });
    acts.push(InitAction::Write32 { offset: ASQ, value: (asq & 0xFFFF_FFFF) as u32 });
    acts.push(InitAction::Write32 { offset: ASQ + 4, value: (asq >> 32) as u32 });
    acts.push(InitAction::Write32 { offset: ACQ, value: (acq & 0xFFFF_FFFF) as u32 });
    acts.push(InitAction::Write32 { offset: ACQ + 4, value: (acq >> 32) as u32 });
    acts.push(InitAction::Write32 { offset: CC, value: CC_EN | CC_CSS_NVM | CC_MPS_4K | CC_IOSQES | CC_IOCQES });
    acts.push(InitAction::WaitReady { want: true, polls: to * 1000 });
    acts
}

} // verus!
