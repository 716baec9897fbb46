use kstorage::blockdriver::ahci::command::{
    ask_interrupt, make_region, parse_identify, write_ncq_fis, write_std_fis, PrdEntry, PRDT_IOC,
};
use kstorage::blockdriver::ahci::controller::{model_text, AhciDriver, PciDevice};
use kstorage::blockdriver::ahci::port::{message, slots_done, AhciError};
use kstorage::blockdriver::ahci::slots::{alloc_slots, tag_mask};
use kstorage::blockdriver::block_cache::CachedDevice;
use kstorage::blockdriver::dma::{translate, DmaAllocator, DmaBuffer, TransCache, Walk};
use kstorage::blockdriver::driver::{
    init_all, register, register_block_devices, take_outcome, BlockDevices, Match, Registry,
    StorageDriver,
};
use kstorage::blockdriver::traits::{BlockDevice, IoBuffer, IoCompletions, IoRequest};
use kstorage::fstypes;
use kstorage::fstypes::{Entry, FileSystem, Mounted};
use kstorage::replay::Step;
use kstorage::vfs::VfsError;

struct Disk {
    data: Vec<u8>,
    submissions: usize,
}

impl BlockDevice for Disk {
    fn submit(&mut self, reqs: &mut Vec<IoRequest>) -> Result<IoCompletions, &'static str> {
        self.submissions += 1;
        let mut done = IoCompletions { completed: 0, errors: 0 };
        for r in reqs.iter_mut() {
            let from = r.lba as usize * 512;
            let to = from + r.count as usize * 512;
            if to > self.data.len() {
                done.errors += 1;
                continue;
            }
            match &mut r.buffer {
                IoBuffer::Buf(b) if !r.is_write => b.copy_from_slice(&self.data[from..to]),
                IoBuffer::Buf(b) => self.data[from..to].copy_from_slice(b),
                IoBuffer::ConstBuf(b) => self.data[from..to].copy_from_slice(b),
                IoBuffer::Phys(_, _) => {}
            }
            done.completed += 1;
        }
        Ok(done)
    }

    fn sector_count(&self) -> u64 {
        (self.data.len() / 512) as u64
    }

    fn model_string(&self) -> &str {
        "RAM"
    }

    fn sector_size(&self) -> usize {
        512
    }
}

fn read(lba: u64) -> Vec<IoRequest> {
    vec![IoRequest { lba, count: 1, buffer: IoBuffer::Buf(vec![0; 512]), is_write: false }]
}

fn write(lba: u64, b: u8) -> Vec<IoRequest> {
    vec![IoRequest { lba, count: 1, buffer: IoBuffer::ConstBuf(vec![b; 512]), is_write: true }]
}

fn first_byte(reqs: &[IoRequest]) -> u8 {
    match &reqs[0].buffer {
        IoBuffer::Buf(b) => b[0],
        _ => panic!("no buffer"),
    }
}

#[test]
fn cached_reads_hit_the_device_once() {
    let mut c = CachedDevice::new(Disk { data: vec![3; 512 * 10], submissions: 0 });
    let mut r = read(4);
    assert!(c.submit(&mut r).unwrap().all_ok());
    assert_eq!(first_byte(&r), 3);
    assert_eq!(c.inner.submissions, 1);
    let mut r = read(4);
    assert!(c.submit(&mut r).unwrap().all_ok());
    assert_eq!(first_byte(&r), 3);
    assert_eq!(c.inner.submissions, 1);
    assert_eq!(c.sector_count(), 10);
    assert_eq!(c.model_string(), "RAM");
}

#[test]
fn cached_writes_are_read_back() {
    let mut c = CachedDevice::new(Disk { data: vec![0; 512 * 10], submissions: 0 });
    c.submit(&mut read(5)).unwrap();
    assert!(c.submit(&mut write(5, 9)).unwrap().all_ok());
    assert_eq!(c.inner.data[5 * 512], 9);
    let mut r = read(5);
    assert!(c.submit(&mut r).unwrap().all_ok());
    assert_eq!(first_byte(&r), 9);
    let failed = c.submit(&mut read(100));
    assert!(failed.is_err() || !failed.unwrap().all_ok());
}

#[test]
fn completions() {
    assert!(IoCompletions { completed: 1, errors: 0 }.all_ok());
    assert!(!IoCompletions { completed: 0, errors: 0 }.all_ok());
    assert!(!IoCompletions { completed: 3, errors: 1 }.all_ok());
}

#[test]
fn command_slots() {
    assert_eq!(alloc_slots(0b0101, 4, 2), Some(vec![1, 3]));
    assert_eq!(alloc_slots(0b0101, 4, 3), None);
    assert_eq!(alloc_slots(0, 32, 0), Some(vec![]));
    assert_eq!(tag_mask(&vec![1, 3]), 0b1010);
    assert_eq!(tag_mask(&vec![31]), 0x8000_0000);
    assert!(slots_done(0, 0, 0b1010));
    assert!(!slots_done(0b0010, 0, 0b1010));
    assert!(!slots_done(0, 0b1000, 0b1010));
}

#[test]
fn command_frames() {
    let f = write_std_fis(true, 0x0000_A1B2_C3D4_E5F6, 0x1234, 0x25);
    assert_eq!(f[0] & 0xFF, 0x27);
    assert_eq!(f[0] >> 16 & 0xFF, 0x25);
    assert_eq!(f[1] & 0xFF_FFFF, 0xD4_E5F6);
    assert_eq!(f[2] & 0xFF_FFFF, 0xA1_B2C3);
    assert_eq!(f[3] & 0xFFFF, 0x1234);
    let q = write_ncq_fis(0x10, 0x0203, 5, 0x60);
    assert_eq!(q[0] >> 24, 0x03);
    assert_eq!(q[2] >> 24, 0x02);
    assert_eq!(q[3] & 0xFF, 5 << 3);
}

#[test]
fn memory_regions_of_a_command() {
    let e = make_region(0x1_2345_6000, 512);
    assert_eq!(e, PrdEntry { dba: 0x2345_6000, dbau: 1, dbc: 511 });
    assert_eq!(ask_interrupt(e).dbc, 511 | PRDT_IOC);
}

#[test]
fn identify_data() {
    let mut w = vec![0u16; 256];
    w[27] = 0x5145;
    w[28] = 0x4D55;
    w[83] = 1 << 10;
    w[100] = 0x5678;
    w[101] = 0x0001;
    w[76] = 1 << 8;
    let id = parse_identify(&w);
    assert!(id.lba48 && id.ncq);
    assert_eq!(id.sector_count, 0x1_5678);
    assert_eq!(&id.model[0..4], b"QEMU");
    assert_eq!(model_text(&id.model), "QEMU");
    w[83] = 0;
    w[60] = 0x0400;
    let id = parse_identify(&w);
    assert!(!id.lba48);
    assert_eq!(id.sector_count, 0x400);
    assert_eq!(model_text(&[0xFF; 40]), "(bad utf8)");
}

#[test]
fn error_messages_differ() {
    let all = [
        AhciError::TranslateFail,
        AhciError::PrdtExhausted,
        AhciError::NotEnoughSlots,
        AhciError::SlotStillActive,
        AhciError::CmdError,
        AhciError::TimedOut,
        AhciError::ResetTimeout,
        AhciError::NoDevice,
    ];
    for (i, a) in all.iter().enumerate() {
        for b in &all[i + 1..] {
            assert_ne!(message(*a), message(*b));
        }
    }
}

struct Picky;

impl StorageDriver for Picky {
    fn name(&self) -> &str {
        "picky"
    }

    fn probe(&self, dev: &PciDevice) -> bool {
        dev.bus == 7
    }
}

fn pci(bus: u8, class: u8, subclass: u8, prog_if: u8) -> PciDevice {
    PciDevice { bus, device: 0, function: 0, class, subclass, prog_if, interrupt_line: 11 }
}

#[test]
fn drivers_are_matched_to_devices() {
    let mut reg = Registry::new();
    register(&mut reg, Box::new(Picky));
    let devs = vec![pci(0, 1, 6, 1), pci(7, 3, 0, 0), pci(7, 1, 6, 1), pci(0, 1, 6, 0)];
    let m = init_all(&mut reg, Box::new(AhciDriver), &devs);
    assert_eq!(m, vec![
        Match { device: 0, driver: 1 },
        Match { device: 1, driver: 0 },
        Match { device: 2, driver: 0 },
        Match { device: 2, driver: 1 },
    ]);
    assert_eq!(reg.drivers[1].driver.name(), "ahci");
}

#[test]
fn block_devices_are_registered_once() {
    let mut known = BlockDevices { list: vec![1] };
    register_block_devices(&mut known, vec![2, 1, 2, 3]);
    assert_eq!(known.list, vec![1, 2, 3]);
}

#[test]
fn addresses_are_translated_once() {
    let mut cache = TransCache::new();
    let ask = match cache.lookup_or_translate(vec![], 0x7000_0123, 0x1000) {
        Step::Ask(w) => w,
        Step::Done(_) => panic!("nothing was asked"),
    };
    assert_eq!(ask, Walk { root: 0x1000, page: 0x7000_0000 });
    match cache.lookup_or_translate(vec![0x9_0000 + 1], 0x7000_0123, 0x1000) {
        Step::Done(p) => assert_eq!(p, Some(0x9_0000)),
        Step::Ask(_) => panic!("asked again"),
    }
    match translate(&mut cache, vec![], 0x1000, 0x7000_0456) {
        Step::Done(p) => assert_eq!(p, Some(0x9_0000)),
        Step::Ask(_) => panic!("forgotten"),
    }
    match translate(&mut cache, vec![0], 0x1000, 0x8000_0000) {
        Step::Done(p) => assert_eq!(p, None),
        Step::Ask(_) => panic!("asked again"),
    }
}

#[test]
fn memory_for_devices() {
    let mut a = DmaAllocator::new(0x1000, 0x8000_0000, 0x7000_0000);
    assert_eq!(a.root(), 0x1000);
    let first = a.map_mmio(0x1800).unwrap();
    let second = a.map_mmio(0x10).unwrap();
    assert_ne!(first, second);
    assert!(a.map_mmio(0x2000_0000).is_err());
    match a.alloc_page(Some(0x5000)) {
        Some(DmaBuffer { phys, size, .. }) => assert_eq!((phys, size), (0x5000, 4096)),
        None => panic!("no page"),
    }
    assert_eq!(a.alloc_page(None), None);
    match a.alloc_contiguous(3, Some(0x9000)) {
        Some(DmaBuffer { phys, size, .. }) => assert_eq!((phys, size), (0x9000, 3 * 4096)),
        None => panic!("no pages"),
    }
}

struct Twice;

impl FileSystem<Disk> for Twice {
    fn name(&self) -> &str {
        "tmpfs"
    }

    fn mount(&self, _device: Option<Disk>) -> Result<Mounted<Disk>, VfsError> {
        Err(VfsError::ReadOnly)
    }
}

#[test]
fn file_systems_are_found_by_name() {
    let mut reg: fstypes::Registry<Disk> = fstypes::Registry::new();
    assert!(fstypes::lookup(&reg, "tmpfs").is_none());
    fstypes::register_all(&mut reg);
    fstypes::register(&mut reg, Entry::Other(Box::new(Twice)));
    assert_eq!(reg.types.len(), 3);
    let fs = fstypes::lookup(&reg, "tmpfs").unwrap();
    assert!(matches!(fs.mount(None), Ok(Mounted::Tmpfs(_, 0))));
    let fs = fstypes::lookup(&reg, "fat32").unwrap();
    assert_eq!(fs.mount(None).err(), Some(VfsError::InvalidDevice));
    assert!(fstypes::lookup(&reg, "ntfs").is_none());
    assert_eq!(reg.types[2].mount(None).err(), Some(VfsError::ReadOnly));
}

#[test]
fn a_controller_that_fails_adds_nothing() {
    let mut found: Vec<u64> = vec![1];
    assert_eq!(take_outcome(&mut found, Ok(vec![2, 3])), None);
    assert_eq!(take_outcome(&mut found, Err("no ports")), Some("no ports"));
    assert_eq!(take_outcome(&mut found, Ok(vec![4])), None);
    assert_eq!(found, vec![1, 2, 3, 4]);
}

#[test]
fn cached_requests_are_counted() {
    let mut c = CachedDevice::new(Disk { data: vec![1; 512 * 4], submissions: 0 });
    let mut reqs = read(1);
    reqs.append(&mut read(9));
    reqs.append(&mut read(1));
    reqs.append(&mut write(2, 8));
    let done = c.submit(&mut reqs).unwrap();
    assert_eq!((done.completed, done.errors), (3, 1));
    assert_eq!(c.inner.submissions, 3);
    let done = c.submit(&mut read(2)).unwrap();
    assert_eq!((done.completed, done.errors), (1, 0));
    assert_eq!(c.inner.submissions, 3);
}
