use kstorage::blockdriver::traits::{BlockDevice, IoBuffer, IoCompletions, IoRequest};
use kstorage::partition::attempt::{
    mount_first_partition, mount_outcome, mount_partition, MountStep,
};
use kstorage::partition::device::PartitionDevice;
use kstorage::partition::{
    check_overlaps, crc32, gpt, mbr, probe, read_sector, read_sectors, settle_gpt, settle_mbr,
    PartitionInfo, PartitionTable,
};
use kstorage::vfs::VfsError;

/// A device in memory.
struct Disk {
    data: Vec<u8>,
    failing: bool,
}

impl Disk {
    fn new(sectors: usize) -> Disk {
        Disk { data: vec![0; sectors * 512], failing: false }
    }
}

impl BlockDevice for Disk {
    fn submit(&mut self, reqs: &mut Vec<IoRequest>) -> Result<IoCompletions, &'static str> {
        if self.failing {
            return Err("device failure");
        }
        let mut done = IoCompletions { completed: 0, errors: 0 };
        for r in reqs.iter_mut() {
            let from = r.lba as usize * 512;
            let to = from + r.count as usize * 512;
            if to > self.data.len() {
                done.errors += 1;
                continue;
            }
            match &mut r.buffer {
                IoBuffer::Buf(b) if !r.is_write => b.copy_from_slice(&self.data[from..to]),
                IoBuffer::Buf(b) => self.data[from..to].copy_from_slice(b),
                IoBuffer::ConstBuf(b) => self.data[from..to].copy_from_slice(b),
                IoBuffer::Phys(_, _) => {}
            }
            done.completed += 1;
        }
        Ok(done)
    }

    fn sector_count(&self) -> u64 {
        (self.data.len() / 512) as u64
    }

    fn model_string(&self) -> &str {
        "RAM"
    }

    fn sector_size(&self) -> usize {
        512
    }
}

fn put_entry(sector: &mut [u8], n: usize, typ: u8, start: u32, count: u32) {
    let off = 0x1BE + n * 16;
    sector[off + 4] = typ;
    sector[off + 8..off + 12].copy_from_slice(&start.to_le_bytes());
    sector[off + 12..off + 16].copy_from_slice(&count.to_le_bytes());
    sector[510] = 0x55;
    sector[511] = 0xAA;
}

fn info(number: u32, start: u64, size: u64, extended: bool) -> PartitionInfo {
    PartitionInfo {
        number,
        start_lba: start,
        end_lba: start + size - 1,
        size_sectors: size,
        partition_type: Some(0x0C),
        guid_type: None,
        guid_unique: None,
        name: None,
        is_extended: extended,
    }
}

fn shape(v: &[PartitionInfo]) -> Vec<(u32, u64, u64, bool)> {
    v.iter().map(|p| (p.number, p.start_lba, p.size_sectors, p.is_extended)).collect()
}

fn gpt_disk() -> Disk {
    let mut d = Disk::new(256);
    put_entry(&mut d.data[0..512], 0, 0xEE, 1, 255);
    let entries = 2 * 512;
    let name: Vec<u16> = "Data \u{1F600}".encode_utf16().collect();
    d.data[entries..entries + 16].copy_from_slice(&[1; 16]);
    d.data[entries + 16..entries + 32].copy_from_slice(&[2; 16]);
    d.data[entries + 32..entries + 40].copy_from_slice(&40u64.to_le_bytes());
    d.data[entries + 40..entries + 48].copy_from_slice(&99u64.to_le_bytes());
    for (i, u) in name.iter().enumerate() {
        let at = entries + 56 + 2 * i;
        d.data[at..at + 2].copy_from_slice(&u.to_le_bytes());
    }
    let third = entries + 2 * 128;
    d.data[third..third + 16].copy_from_slice(&[3; 16]);
    d.data[third + 32..third + 40].copy_from_slice(&100u64.to_le_bytes());
    d.data[third + 40..third + 48].copy_from_slice(&109u64.to_le_bytes());
    let h = &mut d.data[512..1024];
    h[0..8].copy_from_slice(b"EFI PART");
    h[12..16].copy_from_slice(&92u32.to_le_bytes());
    h[72..80].copy_from_slice(&2u64.to_le_bytes());
    h[80..84].copy_from_slice(&4u32.to_le_bytes());
    h[84..88].copy_from_slice(&128u32.to_le_bytes());
    let sum = crc32(&h[0..92]);
    h[16..20].copy_from_slice(&sum.to_le_bytes());
    d
}

#[test]
fn checksum_of_known_bytes() {
    assert_eq!(crc32(b"123456789"), 0xCBF4_3926);
    assert_eq!(crc32(b""), 0);
}

#[test]
fn mbr_primary_partitions() {
    let mut d = Disk::new(1000);
    put_entry(&mut d.data[0..512], 0, 0x0C, 10, 100);
    put_entry(&mut d.data[0..512], 2, 0x83, 200, 50);
    match probe(&mut d) {
        Ok(PartitionTable::Mbr(v)) => {
            assert_eq!(shape(&v), vec![(1, 10, 100, false), (3, 200, 50, false)]);
            assert_eq!(v[0].end_lba, 109);
            assert_eq!(v[1].partition_type, Some(0x83));
        }
        _ => panic!("no table"),
    }
}

#[test]
fn mbr_logical_partitions() {
    let mut d = Disk::new(1000);
    put_entry(&mut d.data[0..512], 0, 0x0C, 10, 40);
    put_entry(&mut d.data[0..512], 1, 0x05, 100, 500);
    put_entry(&mut d.data[100 * 512..101 * 512], 0, 0x83, 1, 20);
    put_entry(&mut d.data[100 * 512..101 * 512], 1, 0x05, 200, 100);
    put_entry(&mut d.data[300 * 512..301 * 512], 0, 0x83, 2, 30);
    match probe(&mut d) {
        Ok(t) => assert_eq!(
            shape(t.partitions()),
            vec![
                (1, 10, 40, false),
                (2, 100, 500, true),
                (5, 101, 20, false),
                (6, 302, 30, false)
            ]
        ),
        Err(e) => panic!("{}", e),
    }
}

#[test]
fn mbr_refusals() {
    let mut d = Disk::new(100);
    assert_eq!(probe(&mut d).err(), Some("no valid MBR or GPT signature"));
    put_entry(&mut d.data[0..512], 0, 0x0C, 10, 91);
    assert_eq!(probe(&mut d).err(), Some("partition extends beyond device"));
    put_entry(&mut d.data[0..512], 0, 0x0C, 10, 20);
    put_entry(&mut d.data[0..512], 1, 0x0C, 29, 20);
    assert_eq!(probe(&mut d).err(), Some("overlapping partitions"));
    put_entry(&mut d.data[0..512], 1, 0x05, 40, 20);
    put_entry(&mut d.data[40 * 512..41 * 512], 0, 0x83, 1, 20);
    assert_eq!(probe(&mut d).err(), Some("logical partition outside extended extent"));
    put_entry(&mut d.data[40 * 512..41 * 512], 0, 0x83, 1, 90);
    assert_eq!(probe(&mut d).err(), Some("logical partition extends beyond device"));
    d.failing = true;
    assert_eq!(probe(&mut d).err(), Some("device failure"));
    d.failing = false;
    assert_eq!(read_sector(&mut d, 100).err(), Some("sector read error"));
    assert_eq!(read_sectors(&mut d, 99, 2).err(), Some("multi-sector read error"));
    assert_eq!(read_sectors(&mut d, 98, 2).unwrap().len(), 1024);
}

#[test]
fn mbr_table_alone() {
    let mut s = vec![0u8; 512];
    put_entry(&mut s, 0, 0xEE, 1, 99);
    put_entry(&mut s, 1, 0x0F, 10, 5);
    put_entry(&mut s, 2, 0x83, 20, 0);
    let (v, ext) = mbr::parse_primary(&s, 100).unwrap();
    assert_eq!(shape(&v), vec![(2, 10, 5, true)]);
    assert_eq!(ext, Some((10, 15)));
}

#[test]
fn gpt_partitions_are_listed() {
    let mut d = gpt_disk();
    match probe(&mut d) {
        Ok(PartitionTable::Gpt(v)) => {
            assert_eq!(shape(&v), vec![(1, 40, 60, false), (3, 100, 10, false)]);
            assert_eq!(v[0].name.as_deref(), Some("Data \u{1F600}"));
            assert_eq!(v[0].guid_type, Some([1; 16]));
            assert_eq!(v[0].guid_unique, Some([2; 16]));
            assert_eq!(v[0].partition_type, None);
            assert_eq!(v[1].name, None);
        }
        _ => panic!("no table"),
    }
}

#[test]
fn gpt_headers_are_checked() {
    let good = gpt_disk().data[512..1024].to_vec();
    let h = gpt::parse_header(&good).unwrap();
    assert_eq!((h.entry_lba, h.num_entries, h.entry_size), (2, 4, 128));
    let mut s = good.clone();
    s[0] = 0;
    assert_eq!(gpt::parse_header(&s).err(), Some("GPT signature not found"));
    let mut s = good.clone();
    s[12] = 91;
    assert_eq!(gpt::parse_header(&s).err(), Some("GPT header size out of range"));
    let mut s = good.clone();
    s[80] = 5;
    assert_eq!(gpt::parse_header(&s).err(), Some("GPT header CRC mismatch"));
    let mut s = good.clone();
    s[84] = 127;
    for b in &mut s[16..20] {
        *b = 0;
    }
    let sum = crc32(&s[0..92]);
    s[16..20].copy_from_slice(&sum.to_le_bytes());
    assert_eq!(gpt::parse_header(&s).err(), Some("GPT entry size too small"));
}

#[test]
fn gpt_ranges_are_checked() {
    let mut b = vec![0u8; 128];
    b[0] = 1;
    b[32..40].copy_from_slice(&10u64.to_le_bytes());
    b[40..48].copy_from_slice(&9u64.to_le_bytes());
    assert_eq!(gpt::parse_entries(&b, 128, 1).err(), Some("partition range overflow"));
    b[40..48].copy_from_slice(&10u64.to_le_bytes());
    assert_eq!(shape(&gpt::parse_entries(&b, 128, 9).unwrap()), vec![(1, 10, 1, false)]);
}

#[test]
fn gpt_that_is_broken_falls_back() {
    let mut d = gpt_disk();
    d.data[512] = 0;
    match probe(&mut d) {
        Ok(PartitionTable::Mbr(v)) => assert!(v.is_empty()),
        _ => panic!("no table"),
    }
    put_entry(&mut d.data[0..512], 1, 0x0C, 10, 1000);
    assert_eq!(probe(&mut d).err(), Some("GPT signature not found"));
}

#[test]
fn overlaps() {
    assert_eq!(check_overlaps(&[info(1, 10, 10, false), info(2, 20, 10, false)]), Ok(()));
    assert_eq!(
        check_overlaps(&[info(1, 20, 10, false), info(2, 10, 11, false)]),
        Err("overlapping partitions")
    );
    assert_eq!(check_overlaps(&[info(1, 10, 10, false), info(2, 10, 50, true)]), Ok(()));
    let mut far = info(1, 10, 10, false);
    far.start_lba = u64::MAX;
    let mut beside = info(2, 10, 1, false);
    beside.start_lba = u64::MAX;
    assert_eq!(check_overlaps(&[far, beside]), Err("partition range overflow"));
}

#[test]
fn settled_tables() {
    assert!(matches!(settle_gpt(vec![info(1, 1, 1, false)]), Ok(PartitionTable::Gpt(_))));
    assert!(matches!(settle_mbr(Ok(vec![]), None), Ok(PartitionTable::Mbr(_))));
    assert_eq!(settle_mbr(Err("a"), None).err(), Some("a"));
    assert_eq!(settle_mbr(Err("a"), Some("b")).err(), Some("b"));
}

#[test]
fn partition_is_a_device() {
    let mut d = Disk::new(100);
    d.data[20 * 512] = 7;
    let mut p = PartitionDevice::new(d, &info(2, 20, 10, false));
    assert_eq!(p.sector_count(), 10);
    assert_eq!(p.model_string(), "partition 2 of RAM");
    assert_eq!(read_sector(&mut p, 0).unwrap()[0], 7);
    assert!(read_sector(&mut p, 10).is_err());
    let mut w = vec![IoRequest {
        lba: 9,
        count: 1,
        buffer: IoBuffer::ConstBuf(vec![5; 512]),
        is_write: true,
    }];
    assert!(p.submit(&mut w).unwrap().all_ok());
    assert_eq!(p.inner.data[29 * 512], 5);
    assert_eq!(p.inner.data[30 * 512], 0);
    let mut far = vec![IoRequest {
        lba: u64::MAX,
        count: 1,
        buffer: IoBuffer::Buf(vec![0; 512]),
        is_write: false,
    }];
    assert!(p.submit(&mut far).is_err());
}

#[test]
fn mounts_are_tried_in_order() {
    let table = PartitionTable::Mbr(vec![
        info(1, 1, 10, true),
        info(5, 2, 3, false),
        info(6, 5, 3, false),
    ]);
    let mut m = match mount_first_partition(Ok(table)) {
        Ok(m) => m,
        Err(_) => panic!("nothing to try"),
    };
    assert_eq!(m.current().number, 5);
    assert!(matches!(m.attempted(Err(VfsError::InvalidDevice)), MountStep::Next));
    assert_eq!(m.current().number, 6);
    match m.attempted(Err(VfsError::IOError)) {
        MountStep::Failed(e) => {
            assert_eq!(e.error, VfsError::IOError);
            assert_eq!(e.detail, "IOError");
        }
        _ => panic!("not failed"),
    }
    assert!(matches!(m.attempted(Ok(())), MountStep::Done));
}

#[test]
fn mounts_that_cannot_be_tried() {
    let e = mount_first_partition(Err("broken")).err().unwrap();
    assert_eq!((e.error, e.detail), (VfsError::InvalidDevice, "broken"));
    let e = mount_first_partition(Ok(PartitionTable::Mbr(vec![info(1, 1, 10, true)])))
        .err()
        .unwrap();
    assert_eq!((e.error, e.detail), (VfsError::NotFound, "no non-extended partition"));
    let probed = Ok(PartitionTable::Gpt(vec![info(1, 1, 1, false), info(4, 2, 2, false)]));
    assert!(matches!(mount_partition(&probed, 4), Ok(1)));
    let e = mount_partition(&probed, 2).err().unwrap();
    assert_eq!((e.error, e.detail), (VfsError::NotFound, "partition number not found"));
    assert!(mount_outcome(Ok(())).is_ok());
    assert_eq!(mount_outcome(Err(VfsError::NoSpace)).err().unwrap().detail, "NoSpace");
}

#[test]
fn gpt_names_hold_every_character() {
    for c in ['\u{10000}', '\u{1FFFF}', '\u{20000}', '\u{3A5C1}', '\u{10FFFF}'] {
        let mut b = vec![0u8; 128];
        b[0] = 1;
        b[32..40].copy_from_slice(&10u64.to_le_bytes());
        b[40..48].copy_from_slice(&19u64.to_le_bytes());
        let text: String = vec!['a', c, 'b'].into_iter().collect();
        for (i, u) in text.encode_utf16().enumerate() {
            b[56 + 2 * i..58 + 2 * i].copy_from_slice(&u.to_le_bytes());
        }
        let v = gpt::parse_entries(&b, 128, 1).unwrap();
        assert_eq!(v[0].name.as_deref(), Some(text.as_str()));
    }
}
