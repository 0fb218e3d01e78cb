use vstd::prelude::*;
use crate::ipc::shared::{RingError, SharedRing};

verus! {

/// A HID boot-protocol keyboard report.
#[derive(Clone, Copy, Debug)]
pub struct KeyReport {
    pub modifiers: u8,
    pub reserved: u8,
    pub keys: [u8; 6],
}

pub const MOD_L_CTRL: u8 = 0x01;
pub const MOD_L_SHIFT: u8 = 0x02;
pub const MOD_L_ALT: u8 = 0x04;
pub const MOD_L_GUI: u8 = 0x08;
pub const MOD_R_CTRL: u8 = 0x10;
pub const MOD_R_SHIFT: u8 = 0x20;
pub const MOD_R_ALT: u8 = 0x40;
pub const MOD_R_GUI: u8 = 0x80;

/// The character of a HID usage code: letters `a`..`z` for 0x04..0x1D, the characters from
/// `1` upward for 0x1E..0x27 (so `1`..`9`, then `:` for 0x27), and newline, space and tab
/// for 0x28, 0x2C and 0x2B.
pub open spec fn ascii_of(code: u8) -> Option<char> {
    if 0x04 <= code <= 0x1D {
        Some(((97 + code - 0x04) as u8) as char)
    } else if 0x1E <= code <= 0x27 {
        Some(((49 + code - 0x1E) as u8) as char)
    } else if code == 0x28 {
        Some('\n')
    } else if code == 0x2C {
        Some(' ')
    } else if code == 0x2B {
        Some('\t')
    } else {
        None
    }
}

pub fn keycode_to_ascii(code: u8) -> (res: Option<char>)
    ensures
        res == ascii_of(code),
{
    if 0x04 <= code && code <= 0x1D {
        Some((97u8 + code - 0x04) as char)
    } else if 0x1E <= code && code <= 0x27 {
        Some((49u8 + code - 0x1E) as char)
    } else if code == 0x28 {
        Some('\n')
    } else if code == 0x2C {
        Some(' ')
    } else if code == 0x2B {
        Some('\t')
    } else {
        None
    }
}

/// The eight bytes of a report as the event ring carries it: modifiers, reserved, then the
/// six key codes.
pub open spec fn report_bytes(r: KeyReport) -> Seq<u8> {
    seq![r.modifiers, r.reserved, r.keys@[0], r.keys@[1], r.keys@[2], r.keys@[3], r.keys@[4], r.keys@[5]]
}

/// The number of bytes of a report in the event ring.
pub const REPORT_SIZE: u32 = 8;

/// Queues `report` on the keyboard's event ring (whose slots hold one report each); when the
/// ring is full the report is dropped and nothing changes.
pub fn on_report(ring: &mut SharedRing, report: &KeyReport)
    requires
        old(ring).wf(),
        old(ring).slot_size == REPORT_SIZE,
        old(ring).head < u64::MAX,
    ensures
        final(ring).wf(),
        final(ring).slot_size == REPORT_SIZE,
        final(ring).capacity == old(ring).capacity,
        old(ring)@.len() < old(ring).capacity ==> final(ring)@ == old(ring)@.push(report_bytes(*report)),
        old(ring)@.len() >= old(ring).capacity ==> final(ring)@ == old(ring)@,
{
    let bytes: [u8; 8] = [
        report.modifiers,
        report.reserved,
        report.keys[0],
        report.keys[1],
        report.keys[2],
        report.keys[3],
        report.keys[4],
        report.keys[5],
    ];
    proof {
        assert(bytes@.subrange(0, 8) =~= report_bytes(*report));
    }
    let _ = ring.enqueue(bytes.as_slice());
}

/// Takes the oldest report off the keyboard's event ring; `None` when it is empty, and then
/// nothing changes.
pub fn poll(ring: &mut SharedRing) -> (res: Option<KeyReport>)
    requires
        old(ring).wf(),
        old(ring).slot_size == REPORT_SIZE,
    ensures
        final(ring).wf(),
        final(ring).slot_size == REPORT_SIZE,
        final(ring).capacity == old(ring).capacity,
        final(ring).head == old(ring).head,
        old(ring)@.len() == 0 ==> res is None && final(ring)@ == old(ring)@,
        old(ring)@.len() > 0 ==> (res matches Some(r) && report_bytes(r) == old(ring)@[0] && final(ring)@ == old(ring)@.drop_first()),
{
    let mut buf: Vec<u8> = vec![0u8; 8];
    match ring.dequeue(&mut buf) {
        Ok(()) => {
            let r = KeyReport { modifiers: buf[0], reserved: buf[1], keys: [buf[2], buf[3], buf[4], buf[5], buf[6], buf[7]] };
            proof {
                assert(report_bytes(r) =~= buf@.subrange(0, 8));
            }
            Some(r)
        },
        Err(_) => None,
    }
}

/// A report comes off the ring as it went on: two reports with the same ring bytes are the
/// same report.
pub proof fn law_report_round_trip(r1: KeyReport, r2: KeyReport)
    requires
        report_bytes(r1) == report_bytes(r2),
    ensures
        r1.modifiers == r2.modifiers,
        r1.reserved == r2.reserved,
        r1.keys@ == r2.keys@,
{
    assert(report_bytes(r1)[0] == report_bytes(r2)[0]);
    assert(report_bytes(r1)[1] == report_bytes(r2)[1]);
    assert forall|i: int| 0 <= i < 6 implies r1.keys@[i] == r2.keys@[i] by {
        assert(report_bytes(r1)[i + 2] == report_bytes(r2)[i + 2]);
    }
    assert(r1.keys@ =~= r2.keys@);
}

/// Key codes map to characters in order: 0x04 is `a` and each following letter code, up to
/// 0x1D, gives the character after the previous one, so the letters are `a` to `z`; 0x1E is
/// `1` and the digit codes after it follow on in the same way. No other code below 0x28 has
/// a character.
pub proof fn law_key_codes_in_order(code: u8)
    ensures
        ascii_of(0x04) == Some('a'),
        ascii_of(0x1E) == Some('1'),
        (0x04 <= code < 0x1D || 0x1E <= code < 0x27) ==> ascii_of(code) is Some && ascii_of((code + 1) as u8) is Some
            && (ascii_of((code + 1) as u8)->Some_0 as u32) == (ascii_of(code)->Some_0 as u32) + 1,
        0x04 <= code <= 0x1D ==> ascii_of(code) is Some && 'a' <= ascii_of(code)->Some_0 <= 'z'
            && (ascii_of(code)->Some_0 as u32) == 97 + code - 4,
        code < 0x04 ==> ascii_of(code) is None,
{
}

} // verus!
