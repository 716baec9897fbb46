use kstorage::blockdriver::ahci::command::PrdEntry;
use kstorage::blockdriver::ahci::controller::{init_controller, PciDevice};
use kstorage::blockdriver::ahci::port;
use kstorage::blockdriver::ahci::port::{AhciError, AhciPort, Page, Transfer};
use kstorage::blockdriver::traits::IoCompletions;
use kstorage::drivers::ahci;
use kstorage::drivers::ahci::{
    bar5_addr, elapsed_ticks, find_controller, make_fis, ms_to_ticks, ticks_to_ms, Disk, DiskError,
};
use kstorage::drivers::ps2::controller;
use kstorage::drivers::ps2::controller::{
    deadline_after, do_init, runtime_dev_command, wait_status, Setup, Waiting,
};
use kstorage::drivers::ps2::decoder::KeyCode;
use kstorage::drivers::ps2::keyboard;
use kstorage::drivers::ps2::keyboard::{
    irq_more, resolve_gsi, IrqNext, Keyboard, Output, Polarity, TriggerMode,
};
use kstorage::replay::Step;
use std::collections::VecDeque;

/// A keyboard controller and a keyboard behind it.
struct Ps2 {
    out: VecDeque<u8>,
    command_byte: u8,
    awaits_command_byte: bool,
    self_test: u8,
    sent: Vec<u8>,
    clock: u64,
}

impl Ps2 {
    fn new() -> Ps2 {
        Ps2 {
            out: VecDeque::new(),
            command_byte: 0x65,
            awaits_command_byte: false,
            self_test: 0x55,
            sent: Vec::new(),
            clock: 0,
        }
    }

    fn perform(&mut self, a: controller::Action) -> u64 {
        match a {
            controller::Action::WaitStatus { mask, want_set, .. } => {
                if mask & 1 != 0 && want_set {
                    !self.out.is_empty() as u64
                } else {
                    1
                }
            }
            controller::Action::In(0x64) => !self.out.is_empty() as u64,
            controller::Action::In(_) => self.out.pop_front().unwrap_or(0) as u64,
            controller::Action::Out(0x64, c) => {
                match c {
                    0x20 => self.out.push_back(self.command_byte),
                    0x60 => self.awaits_command_byte = true,
                    0xAA => self.out.push_back(self.self_test),
                    0xAB => self.out.push_back(0),
                    _ => {}
                }
                0
            }
            controller::Action::Out(_, b) => {
                if self.awaits_command_byte {
                    self.awaits_command_byte = false;
                    self.command_byte = b;
                } else {
                    self.sent.push(b);
                    self.out.push_back(0xFA);
                    match b {
                        0xFF => self.out.push_back(0xAA),
                        0xF2 => {
                            self.out.push_back(0xAB);
                            self.out.push_back(0x83);
                        }
                        _ => {}
                    }
                }
                0
            }
            controller::Action::Now => {
                self.clock += 1;
                self.clock
            }
            controller::Action::MaskInterrupts => 1,
            controller::Action::RestoreInterrupts(_) => 0,
            controller::Action::RouteIrq => 0x31,
        }
    }

    fn set_up(&mut self) -> Setup {
        let mut replies: Vec<u64> = Vec::new();
        for _ in 0..10_000 {
            match do_init(replies.clone()) {
                Step::Ask(a) => replies.push(self.perform(a)),
                Step::Done(s) => return s,
            }
        }
        panic!("no end");
    }
}

#[test]
fn keyboard_is_set_up() {
    let mut m = Ps2::new();
    let s = m.set_up();
    assert_eq!(s, Setup { ready: true, vector: Some(0x31), irq: true });
    assert_eq!(m.command_byte & 0x01, 0x01);
    assert_eq!(m.sent.first(), Some(&0xFF));
    assert_eq!(m.sent.last(), Some(&0xF4));
}

#[test]
fn keyboard_failure_restores_the_controller() {
    let mut m = Ps2::new();
    m.self_test = 0xFC;
    let s = m.set_up();
    assert_eq!(s, Setup { ready: false, vector: None, irq: false });
    assert_eq!(m.command_byte, 0x65);
}

#[test]
fn keyboard_commands_at_run_time() {
    let mut m = Ps2::new();
    let before = m.command_byte;
    let mut replies: Vec<u64> = Vec::new();
    let answered = loop {
        match runtime_dev_command(replies.clone(), &[0xED, 0x04]) {
            Step::Ask(a) => replies.push(m.perform(a)),
            Step::Done(ok) => break ok,
        }
    };
    assert!(answered);
    assert_eq!(m.sent, vec![0xED, 0x04]);
    assert_eq!(m.command_byte, before);
}

#[test]
fn keyboard_bytes_become_events() {
    let mut m = Ps2::new();
    let mut kb = Keyboard::new();
    assert!(!keyboard::is_present(&kb));
    let mut replies: Vec<u64> = Vec::new();
    loop {
        match keyboard::init(&mut kb, replies.clone()) {
            Step::Ask(a) => replies.push(m.perform(a)),
            Step::Done(there) => {
                assert!(there);
                break;
            }
        }
    }
    assert!(keyboard::is_present(&kb));
    kb.attach(5);
    assert_eq!(kb.irq_accept(0, 0x01, 0x1E), IrqNext::More(1));
    assert_eq!(kb.irq_accept(1, 0x21, 0x55), IrqNext::More(1));
    assert_eq!(kb.irq_accept(1, 0x01, 0x3A), IrqNext::More(2));
    assert_eq!(kb.irq_accept(2, 0x01, 0x9E), IrqNext::More(3));
    assert_eq!(kb.poll_device(), vec![
        Output::Event { device_id: 5, code: KeyCode::A, value: 1 },
        Output::SyncLeds { caps: true, num: false, scroll: false },
        Output::Event { device_id: 5, code: KeyCode::CapsLock, value: 1 },
        Output::Event { device_id: 5, code: KeyCode::A, value: 0 },
    ]);
    assert_eq!(kb.poll_device(), vec![]);
    assert!(irq_more(0x01, 3));
    assert!(!irq_more(0x00, 3));
}

#[test]
fn keyboard_overflow_is_counted() {
    let mut kb = Keyboard::new();
    for _ in 0..63 {
        assert!(matches!(kb.irq_accept(0, 1, 0x1E), IrqNext::More(1)));
    }
    assert_eq!(kb.irq_accept(0, 1, 0x1E), IrqNext::Stop);
    assert_eq!(keyboard::overflow_count(&kb), 1);
}

#[test]
fn keyboard_lights() {
    let mut kb = Keyboard::new();
    assert_eq!(kb.set_leds(true, false, true), Some([0xED, 5]));
    kb.leds_answered(5, true);
    assert_eq!(kb.set_leds(true, false, true), None);
    assert_eq!(kb.set_leds(false, true, false), Some([0xED, 2]));
}

#[test]
fn keyboard_interrupt_line() {
    assert_eq!(resolve_gsi(None), (1, Polarity::ActiveHigh, TriggerMode::Edge));
    let o = (9, Polarity::ActiveLow, TriggerMode::Level);
    assert_eq!(resolve_gsi(Some(o)), o);
}

#[test]
fn waits_end() {
    assert_eq!(deadline_after(5, 2), 2_000_005);
    assert_eq!(deadline_after(u64::MAX, 2), u64::MAX);
    assert_eq!(wait_status(0x01, 0x01, true, 0, 10), Waiting::Met);
    assert_eq!(wait_status(0x00, 0x01, true, 9, 10), Waiting::Again);
    assert_eq!(wait_status(0x00, 0x01, true, 10, 10), Waiting::Expired);
    assert_eq!(wait_status(0x00, 0x02, false, 10, 10), Waiting::Met);
}

fn a_port(ncq: bool) -> AhciPort {
    AhciPort {
        port: 2,
        scratch_paddr: 0x9000,
        max_prdt: 64,
        n_slots: 32,
        sector_count: 1000,
        lba48: true,
        ncq,
        model: [0; 40],
        slot_alloc: 0,
    }
}

/// Runs a submission on a machine that translates every address to itself plus an
/// offset and answers register reads by `read`.
fn submit(
    p: &AhciPort,
    reqs: &Vec<Transfer>,
    read: &dyn Fn(u32) -> u64,
) -> (Vec<port::Action>, Result<IoCompletions, AhciError>) {
    let mut replies: Vec<u64> = Vec::new();
    let mut done: Vec<port::Action> = Vec::new();
    for _ in 0..20_000 {
        match p.submit(replies.clone(), reqs) {
            Step::Done(r) => return (done, r),
            Step::Ask(a) => {
                replies.push(match a {
                    port::Action::Translate(v) => v + 0x1000_0000 + 1,
                    port::Action::ReadPort(_, r) => read(r),
                    _ => 1,
                });
                done.push(a);
            }
        }
    }
    panic!("no end");
}

fn transfer(lba: u64, count: u32, va: u64, is_write: bool) -> Transfer {
    Transfer { lba, count, buf_vaddr: va, buf_size: count as u64 * 512, is_write }
}

#[test]
fn submission_builds_regions_and_starts() {
    let p = a_port(true);
    let reqs = vec![transfer(10, 16, 0x40_0E00, false), transfer(99, 1, 0x50_0000, false)];
    let (done, r) = submit(&p, &reqs, &|_| 0);
    assert_eq!(r, Ok(IoCompletions { completed: 0b11, errors: 0 }));
    let regions: Vec<port::Action> =
        done.iter().filter(|a| matches!(a, port::Action::WritePrd(..))).cloned().collect();
    assert_eq!(regions.len(), 6);
    assert_eq!(
        regions[3],
        port::Action::WritePrd(0, 2, PrdEntry { dba: 0x1040_2000, dbau: 0, dbc: 3583 | 1 << 31 })
    );
    assert_eq!(
        regions[0],
        port::Action::WritePrd(0, 0, PrdEntry { dba: 0x1040_0E00, dbau: 0, dbc: 511 })
    );
    assert!(done.contains(&port::Action::WritePort(2, 0x34, 0b11)));
    assert!(done.contains(&port::Action::WritePort(2, 0x38, 0b11)));
}

#[test]
fn submission_without_queuing_takes_one() {
    let p = a_port(false);
    let reqs = vec![transfer(10, 1, 0x40_0000, true), transfer(99, 1, 0x50_0000, true)];
    let (done, r) = submit(&p, &reqs, &|_| 0);
    assert_eq!(r, Ok(IoCompletions { completed: 1, errors: 0 }));
    assert!(done.contains(&port::Action::FlushCache(0x40_0000, 512)));
    assert!(!done.iter().any(|a| matches!(a, port::Action::WritePort(2, 0x34, _))));
    let (_, r) = submit(&p, &vec![], &|_| 0);
    assert_eq!(r, Ok(IoCompletions { completed: 0, errors: 0 }));
}

#[test]
fn submission_failures() {
    let p = a_port(true);
    let short = Transfer { buf_size: 100, ..transfer(1, 1, 0x1000, false) };
    let (_, r) = submit(&p, &vec![short], &|_| 0);
    assert_eq!(r, Ok(IoCompletions { completed: 0, errors: 1 }));
    let full = AhciPort { slot_alloc: 0xFFFF_FFFF, ..p };
    let (_, r) = submit(&full, &vec![transfer(1, 1, 0x1000, false)], &|_| 0);
    assert_eq!(r, Err(AhciError::NotEnoughSlots));
    let (_, r) = submit(&p, &vec![transfer(1, 1, 0x1000, false)], &|reg| {
        if reg == 0x38 {
            1
        } else {
            0
        }
    });
    assert_eq!(r, Err(AhciError::SlotStillActive));
}

/// A controller with one disk at port 0.
fn controller_reply(a: port::Action) -> u64 {
    match a {
        port::Action::MapRegisters(_) => 1,
        port::Action::ReadHba(0x00) => 31 << 8,
        port::Action::ReadHba(0x0C) => 1,
        port::Action::ReadHba(_) => 0,
        port::Action::ReadPort(_, 0x28) => 0x123,
        port::Action::ReadPort(_, _) => 0,
        port::Action::AllocPage(Page::Scratch(_)) => 0x8001,
        port::Action::AllocPage(_) => 0x4001,
        port::Action::AwaitLink(_) => 1,
        port::Action::RegisterIrq => 1,
        port::Action::EnableIrq(_) => 1,
        port::Action::ReadScratch(_, 83) => 1 << 10,
        port::Action::ReadScratch(_, 100) => 0x800,
        port::Action::ReadScratch(_, 76) => 1 << 8,
        port::Action::ReadScratch(_, 27) => 0x4142,
        port::Action::ReadScratch(..) => 0,
        _ => 1,
    }
}

#[test]
fn controller_comes_up() {
    let mut replies: Vec<u64> = Vec::new();
    let ports = loop {
        match init_controller(replies.clone(), true, 11) {
            Step::Ask(a) => replies.push(controller_reply(a)),
            Step::Done(r) => match r {
                Ok(p) => break p,
                Err(e) => panic!("{:?}", e),
            },
        }
        assert!(replies.len() < 5_000);
    };
    assert_eq!(ports.len(), 1);
    assert_eq!(ports[0].port, 0);
    assert_eq!(ports[0].n_slots, 32);
    assert_eq!(ports[0].sector_count(), 0x800);
    assert!(ports[0].ncq && ports[0].lba48);
    assert_eq!(ports[0].model_string(), "AB");
}

#[test]
fn controller_that_is_not_mapped() {
    match init_controller(vec![], false, 0) {
        Step::Done(Err(e)) => assert_eq!(e, AhciError::NotMemoryMapped),
        _ => panic!("went on"),
    }
}

#[test]
fn timer_arithmetic() {
    assert_eq!(elapsed_ticks(100, 80, 30), 50);
    assert_eq!(elapsed_ticks(100, 30, 80), 50);
    assert_eq!(ticks_to_ms(50, 100, 10), 5);
    assert_eq!(ms_to_ticks(5, 100, 10), 50);
}

#[test]
fn controller_is_found() {
    assert_eq!(bar5_addr([0, 0, 0, 0, 0x5, 0xFEBF_1000]), (0xFEBF_1000, true));
    assert_eq!(bar5_addr([0, 0, 0, 0, 0x2, 0xFEBF_1004]), (0x2_FEBF_1000, true));
    assert_eq!(bar5_addr([0, 0, 0, 0, 0, 0xC001]), (0, false));
    assert_eq!(bar5_addr([0, 0, 0, 0, 0, 0xC002]), (0, false));
    let other = PciDevice {
        bus: 0,
        device: 0,
        function: 0,
        class: 3,
        subclass: 0,
        prog_if: 0,
        interrupt_line: 0,
    };
    let ahci = PciDevice { class: 1, subclass: 6, prog_if: 1, ..other };
    assert_eq!(find_controller(&vec![other, ahci, ahci]), Some(1));
    assert_eq!(find_controller(&vec![other]), None);
}

#[test]
fn frames_of_the_plain_driver() {
    let f = make_fis(true, 0x0A0B_0C0D_0E0F, 0x0102, 0x25);
    assert_eq!(&f[0..4], &[0x27, 0x80, 0x25, 0]);
    assert_eq!(&f[4..7], &[0x0F, 0x0E, 0x0D]);
    assert_eq!(&f[7..11], &[0x40, 0x0C, 0x0B, 0]);
    assert_eq!(&f[11..14], &[0x02, 0x01, 0]);
    let f = make_fis(false, 0x0A0B_0C0D_0E0F, 0x0102, 0xC8);
    assert_eq!(&f[7..14], &[0xE0, 0x0C, 0, 0, 0x02, 0, 0]);
}

fn plain_disk() -> Disk {
    Disk {
        cl_paddr: 0x4000,
        scratch_paddr: 0x8000,
        max_prdt: 8,
        sector_count: 77,
        lba48: true,
        model: [b'M'; 40],
    }
}

fn run_plain(
    write: bool,
    count: u32,
    len: u64,
    translates: bool,
) -> (Vec<ahci::Action>, Result<(), DiskError>) {
    let d = plain_disk();
    let mut replies: Vec<u64> = Vec::new();
    let mut done: Vec<ahci::Action> = Vec::new();
    for _ in 0..5_000 {
        let step = if write {
            d.write_sectors(replies.clone(), 3, count, 0x7000, len)
        } else {
            d.read_sectors(replies.clone(), 3, count, 0x7000, len)
        };
        match step {
            Step::Done(r) => return (done, r),
            Step::Ask(a) => {
                replies.push(match a {
                    ahci::Action::Translate(v) => {
                        if translates {
                            v + 1
                        } else {
                            0
                        }
                    }
                    ahci::Action::Read(_) => 0,
                    _ => 1,
                });
                done.push(a);
            }
        }
    }
    panic!("no end");
}

#[test]
fn plain_driver_transfers() {
    assert_eq!(plain_disk().sector_count(), 77);
    assert_eq!(plain_disk().model_string(), "M".repeat(40));
    let (done, r) = run_plain(false, 2, 1024, true);
    assert_eq!(r, Ok(()));
    assert!(done.contains(&ahci::Action::AwaitCommand));
    assert!(!done.iter().any(|a| matches!(a, ahci::Action::DrainScratch(_))));
    let (done, r) = run_plain(false, 2, 1024, false);
    assert_eq!(r, Ok(()));
    assert!(done.contains(&ahci::Action::DrainScratch(1024)));
    let (done, r) = run_plain(true, 2, 1024, false);
    assert_eq!(r, Ok(()));
    assert!(done.contains(&ahci::Action::FillScratch(1024)));
    assert_eq!(run_plain(false, 2, 1023, true).1, Err(DiskError::BufferTooSmall));
    assert_eq!(run_plain(false, 9, 9 * 512, false).1, Err(DiskError::TooManySectors));
}

#[test]
fn plain_driver_without_a_controller() {
    match ahci::init(vec![], None) {
        Step::Done(d) => assert!(d.is_none()),
        Step::Ask(_) => panic!("went on"),
    }
}
