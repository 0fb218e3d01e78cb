use sane::ipc::shared::SharedRing;
use sane::mem::pmm::{Pmm, USABLE_FRAMES};
use sane::usr::drivers::bus::pci::{bar0_is_64, cfg_addr, decode_device, PciDevice, PciTable, MAX_DEVICES};
use sane::usr::drivers::bus::xhci::XhciController;
use sane::usr::drivers::libs::usb::{parse_header, DescType};
use sane::usr::drivers::nvme::dma::DmaBuffer;
use sane::usr::drivers::nvme::main::{
    disable_sequence, doorbell, enable_sequence, read_command, ready_reached, ready_timeout, InitAction, IO_READ,
};
use sane::usr::drivers::nvme::reg::{ACQ, AQA, ASQ, CC};
use sane::usr::drivers::nvme::namespace::Namespace;
use sane::usr::drivers::nvme::queue::{CompletionQueue, CqEntry, SubmissionQueue, QUEUE_DEPTH};
use sane::usr::drivers::usb::keyboard::{self, keycode_to_ascii, KeyReport};
use sane::usr::drivers::usb::mouse::{self, MouseReport, MouseState};

fn nvme_device(bar0: u64) -> PciDevice {
    PciDevice { bus: 0, dev: 3, fun: 0, vendor: 0x144D, device: 0xA808, class: 1, subclass: 8, prog_if: 2, bar0 }
}

fn other_device(class: u8, subclass: u8, prog_if: u8) -> PciDevice {
    PciDevice { bus: 0, dev: 1, fun: 0, vendor: 0x8086, device: 0x1234, class, subclass, prog_if, bar0: 0xF000_0000 }
}

#[test]
fn config_addresses_pack_bus_device_function_and_dword() {
    assert_eq!(cfg_addr(0, 0, 0, 0), 0xE000_0000);
    assert_eq!(cfg_addr(1, 2, 3, 0x10), 0xE011_3010);
    assert_eq!(cfg_addr(1, 2, 3, 0x13), 0xE011_3010);
    assert_eq!(cfg_addr(255, 31, 7, 0xFFF), 0xEFFF_FFFC);
}

#[test]
fn bar_width_bit() {
    assert!(bar0_is_64(0xFEB0_0004));
    assert!(!bar0_is_64(0xFEB0_0008));
}

#[test]
fn decode_absent_function() {
    assert!(decode_device(0, 5, 0, 0xFFFF_FFFF, 0, 0, 0).is_none());
}

#[test]
fn decode_64_bit_nvme_function() {
    let d = decode_device(0, 3, 1, 0xA808_144D, 0x0108_0200, 0xFEB0_0004, 0x1).unwrap();
    assert_eq!((d.bus, d.dev, d.fun), (0, 3, 1));
    assert_eq!(d.vendor, 0x144D);
    assert_eq!(d.device, 0xA808);
    assert_eq!((d.class, d.subclass, d.prog_if), (1, 8, 2));
    assert_eq!(d.bar0, 0x1_FEB0_0000);
}

#[test]
fn decode_32_bit_bar_ignores_high_half() {
    let d = decode_device(0, 2, 0, 0x1111_8086, 0x0300_0000, 0xFD00_0008, 0xDEAD).unwrap();
    assert_eq!(d.bar0, 0xFD00_0000);
    assert_eq!((d.class, d.subclass, d.prog_if), (3, 0, 0));
}

#[test]
fn nvme_lookup_takes_first_match() {
    let mut t = PciTable::new();
    assert_eq!(t.find_nvme_bar0(), None);
    t.add(other_device(1, 8, 1));
    t.add(other_device(1, 6, 2));
    assert_eq!(t.find_nvme_bar0(), None);
    t.add(nvme_device(0xFEB0_0000));
    t.add(nvme_device(0xFEC0_0000));
    assert_eq!(t.find_nvme_bar0(), Some(0xFEB0_0000));
    assert_eq!(t.devices().len(), 4);
}

#[test]
fn device_table_drops_beyond_capacity() {
    let mut t = PciTable::new();
    for _ in 0..MAX_DEVICES {
        t.add(other_device(2, 0, 0));
    }
    t.add(nvme_device(0x1000));
    assert_eq!(t.devices().len(), MAX_DEVICES);
    assert_eq!(t.find_nvme_bar0(), None);
}

#[test]
fn xhci_registers_decoded() {
    let x = XhciController::from_registers(0xFE00_0000, 0x20, 0x0800_0040);
    assert_eq!(x.cap_base, 0xFE00_0000);
    assert_eq!(x.op_base, 0xFE00_0020);
    assert_eq!(x.max_slots, 0x40);
    assert_eq!(x.max_ports, 8);
}

#[test]
fn descriptor_headers() {
    assert_eq!(parse_header(&[0x12, 0x01]), Some(DescType::Device));
    assert_eq!(parse_header(&[0x09, 0x02, 0, 0]), Some(DescType::Config));
    assert_eq!(parse_header(&[0x04, 0x03]), Some(DescType::String));
    assert_eq!(parse_header(&[0x09, 0x04]), Some(DescType::Interface));
    assert_eq!(parse_header(&[0x07, 0x05]), Some(DescType::Endpoint));
    assert_eq!(parse_header(&[0x09, 0x21]), Some(DescType::HidClass));
    assert_eq!(parse_header(&[0x09, 0x22]), None);
    assert_eq!(parse_header(&[0x0A, 0x06]), None);
    assert_eq!(parse_header(&[0x12]), None);
    assert_eq!(parse_header(&[]), None);
}

#[test]
fn read_command_layout() {
    let c = read_command(1, 0x1_0000_0005, 8, 0x20_0000);
    assert_eq!(c.cdw0, IO_READ as u32 | 0x1_0000);
    assert_eq!(c.cdw0, 0x1_0002);
    assert_eq!(c.nsid, 1);
    assert_eq!(c.dptr, [0x20_0000, 0]);
    assert_eq!(c.cdw10, 5);
    assert_eq!(c.cdw11, 1);
    assert_eq!(c.cdw12, 7);
    assert_eq!((c.cdw2, c.cdw3, c.mptr, c.cdw13, c.cdw14, c.cdw15), (0, 0, 0, 0, 0, 0));
}

#[test]
fn doorbells_alternate() {
    assert_eq!(doorbell(0xFE00_0000, 0, false), 0xFE00_1000);
    assert_eq!(doorbell(0xFE00_0000, 0, true), 0xFE00_1004);
    assert_eq!(doorbell(0xFE00_0000, 1, false), 0xFE00_1008);
    assert_eq!(doorbell(0xFE00_0000, 1, true), 0xFE00_100C);
}

#[test]
fn namespace_from_identify_data() {
    let mut data = [0u8; 4096];
    data[1] = 0x10; // 4096 blocks
    data[26] = 0; // format 0
    data[130] = 9; // 512-byte blocks
    let ns = Namespace::from_identify(1, &data);
    assert_eq!(ns.nsid, 1);
    assert_eq!(ns.lba_count, 4096);
    assert_eq!(ns.lba_size, 512);
    assert_eq!(ns.size_mb, 2);

    let mut data = [0u8; 4096];
    data[2] = 0x10; // 0x100000 blocks
    data[26] = 0x11; // format 1 (upper bits ignored)
    data[134] = 12; // 4096-byte blocks
    data[130] = 9;
    let ns = Namespace::from_identify(2, &data);
    assert_eq!(ns.lba_count, 0x10_0000);
    assert_eq!(ns.lba_size, 4096);
    assert_eq!(ns.size_mb, 4096);
}

#[test]
fn dma_buffers_come_from_the_frame_allocator() {
    let mut p = Pmm::init();
    let one = DmaBuffer::allocate(&mut p, 1).unwrap();
    assert_eq!((one.phys, one.virt, one.size), (0x10_0000, 0x10_0000, 4096));
    let four = DmaBuffer::allocate(&mut p, 4).unwrap();
    assert_eq!((four.phys, four.size), (0x10_1000, 16384));
    let huge = DmaBuffer::allocate(&mut p, 512).unwrap();
    assert_eq!((huge.phys, huge.virt, huge.size), (0x20_0000, 0x20_0000, 0x20_0000));
    assert_eq!(p.free_frames(), USABLE_FRAMES - 514);
    one.free(&mut p);
    assert_eq!(p.free_frames(), USABLE_FRAMES - 513);
}

#[test]
fn submission_tail_wraps() {
    let mut p = Pmm::init();
    let mut sq = SubmissionQueue::new(&mut p, 1, 0xFE00_1008).unwrap();
    assert_eq!(sq.tail, 0);
    assert_eq!(sq.submit_slot(), (0x10_0000, 1));
    assert_eq!(sq.submit_slot(), (0x10_0040, 2));
    for _ in 2..QUEUE_DEPTH - 1 {
        sq.submit_slot();
    }
    assert_eq!(sq.submit_slot(), (0x10_0000 + 63 * 64, 0));
    assert_eq!(sq.tail, 0);
}

#[test]
fn completion_phase_flips_on_wrap() {
    let mut p = Pmm::init();
    let mut cq = CompletionQueue::new(&mut p, 1, 0xFE00_100C).unwrap();
    assert_eq!((cq.head, cq.phase), (0, 1));
    assert_eq!(cq.head_address(), 0x10_0000);
    let stale = CqEntry { dw0: 0, dw1: 0, sqhd: 0, sqid: 1, cid: 1, sf: 0 };
    let fresh = CqEntry { dw0: 0, dw1: 0, sqhd: 0, sqid: 1, cid: 1, sf: 1 };
    assert_eq!(cq.poll_step(&stale), None);
    assert_eq!(cq.head, 0);
    assert_eq!(cq.poll_step(&fresh), Some(1));
    assert_eq!(cq.head_address(), 0x10_0010);
    for _ in 1..QUEUE_DEPTH - 1 {
        cq.poll_step(&fresh);
    }
    assert_eq!(cq.phase, 1);
    assert_eq!(cq.poll_step(&fresh), Some(0));
    assert_eq!(cq.phase, 0);
    assert_eq!(cq.poll_step(&fresh), None);
    let flipped = CqEntry { sf: 0x8000, ..fresh };
    assert_eq!(cq.poll_step(&flipped), Some(1));
}

#[test]
fn keycodes_to_characters() {
    assert_eq!(keycode_to_ascii(0x04), Some('a'));
    assert_eq!(keycode_to_ascii(0x1D), Some('z'));
    assert_eq!(keycode_to_ascii(0x1E), Some('1'));
    assert_eq!(keycode_to_ascii(0x26), Some('9'));
    assert_eq!(keycode_to_ascii(0x27), Some(':'));
    assert_eq!(keycode_to_ascii(0x28), Some('\n'));
    assert_eq!(keycode_to_ascii(0x2C), Some(' '));
    assert_eq!(keycode_to_ascii(0x2B), Some('\t'));
    assert_eq!(keycode_to_ascii(0x00), None);
    assert_eq!(keycode_to_ascii(0x2A), None);
}

#[test]
fn keyboard_reports_round_trip_in_order() {
    let mut ring = SharedRing::new(0x10_0000, 2, 8);
    assert!(keyboard::poll(&mut ring).is_none());
    let a = KeyReport { modifiers: 0x02, reserved: 0, keys: [0x04, 0, 0, 0, 0, 0] };
    let b = KeyReport { modifiers: 0, reserved: 7, keys: [0x1E, 0x1F, 0x20, 0x21, 0x22, 0x23] };
    let c = KeyReport { modifiers: 0x80, reserved: 0, keys: [0x2C; 6] };
    keyboard::on_report(&mut ring, &a);
    keyboard::on_report(&mut ring, &b);
    keyboard::on_report(&mut ring, &c); // full: dropped
    let got = keyboard::poll(&mut ring).unwrap();
    assert_eq!((got.modifiers, got.reserved, got.keys), (a.modifiers, a.reserved, a.keys));
    let got = keyboard::poll(&mut ring).unwrap();
    assert_eq!((got.modifiers, got.reserved, got.keys), (b.modifiers, b.reserved, b.keys));
    assert!(keyboard::poll(&mut ring).is_none());
    keyboard::on_report(&mut ring, &c);
    let got = keyboard::poll(&mut ring).unwrap();
    assert_eq!(got.keys, [0x2C; 6]);
}

#[test]
fn mouse_cursor_is_held_on_screen() {
    mouse::start();
    let mut m = MouseState::new();
    assert_eq!(mouse::cursor(&m), (0, 0));
    mouse::on_report(&mut m, &MouseReport { buttons: 1, dx: 10, dy: -5, wheel: 0 });
    assert_eq!(mouse::cursor(&m), (10, 0));
    assert_eq!(mouse::buttons(&m), 1);
    m.cursor_x = 1915;
    m.cursor_y = 1075;
    mouse::on_report(&mut m, &MouseReport { buttons: 0, dx: 100, dy: 127, wheel: 1 });
    assert_eq!(mouse::cursor(&m), (1919, 1079));
    assert_eq!(mouse::buttons(&m), 0);
    mouse::on_report(&mut m, &MouseReport { buttons: 6, dx: -128, dy: -3, wheel: 0 });
    assert_eq!(mouse::cursor(&m), (1791, 1076));
    assert_eq!(mouse::buttons(&m), 6);
}

#[test]
fn nvme_bring_up_steps() {
    assert_eq!(ready_timeout(0x0000_0020_1E01_0FFF), 0x1E);
    assert_eq!(ready_timeout(0xFFFF_FFFF_FFFF_FFFF), 0xFF);
    assert!(ready_reached(1, true));
    assert!(!ready_reached(0, true));
    assert!(ready_reached(2, false));
    assert!(!ready_reached(3, false));
    assert_eq!(
        disable_sequence(30),
        vec![InitAction::Write32 { offset: CC, value: 0 }, InitAction::WaitReady { want: false, polls: 30_000 }]
    );
    assert_eq!(
        enable_sequence(30, 0x1_0020_0000, 0x10_1000),
        vec![
            InitAction::Write32 { offset: AQA, value: 0x003F_003F },
            InitAction::Write32 { offset: ASQ, value: 0x0020_0000 },
            InitAction::Write32 { offset: ASQ + 4, value: 1 },
            InitAction::Write32 { offset: ACQ, value: 0x0010_1000 },
            InitAction::Write32 { offset: ACQ + 4, value: 0 },
            InitAction::Write32 { offset: CC, value: 0x0046_0001 },
            InitAction::WaitReady { want: true, polls: 30_000 },
        ]
    );
}
