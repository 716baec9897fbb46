use kstorage::blockdriver::traits::{BlockDevice, IoBuffer, IoCompletions, IoRequest};
use kstorage::fstypes::{FileSystem, Mounted};
use kstorage::ntfs::attr::{
    decode_utf16le, filetime_to_epoch, iter_attrs, parse_attr_list, parse_file_name, u16_at,
    u32_at, u64_at,
};
use kstorage::ntfs::boot::BootSector;
use kstorage::ntfs::detail::LastError;
use kstorage::ntfs::inode::NtfsInode;
use kstorage::ntfs::mount::NtfsFileSystem;
use kstorage::ntfs::record::usa_fixup;
use kstorage::ntfs::runs::{decode_mapping_pairs, Run, RunList};
use kstorage::ntfs::selftest::{
    child_path, content_text, done_text, entry_text, failure_text, is_shown, lists_depth,
    read_enough, sample_text, stat_text, tail_sample, write_text,
};
use kstorage::ntfs::volume::NtfsSuperBlock;
use kstorage::vfs::{DirEntry, FileType, VfsError};

struct Disk {
    data: Vec<u8>,
    failing: bool,
}

impl BlockDevice for Disk {
    fn submit(&mut self, reqs: &mut Vec<IoRequest>) -> Result<IoCompletions, &'static str> {
        if self.failing {
            return Err("device failure");
        }
        let mut done = IoCompletions { completed: 0, errors: 0 };
        for r in reqs.iter_mut() {
            let from = r.lba as usize * 512;
            let to = from + r.count as usize * 512;
            if to > self.data.len() {
                done.errors += 1;
                continue;
            }
            match &mut r.buffer {
                IoBuffer::Buf(b) if !r.is_write => b.copy_from_slice(&self.data[from..to]),
                IoBuffer::Buf(b) => self.data[from..to].copy_from_slice(b),
                IoBuffer::ConstBuf(b) => self.data[from..to].copy_from_slice(b),
                IoBuffer::Phys(_, _) => {}
            }
            done.completed += 1;
        }
        Ok(done)
    }

    fn sector_count(&self) -> u64 {
        (self.data.len() / 512) as u64
    }

    fn model_string(&self) -> &str {
        "RAM"
    }

    fn sector_size(&self) -> usize {
        512
    }
}

fn put16(d: &mut [u8], at: usize, v: u16) {
    d[at..at + 2].copy_from_slice(&v.to_le_bytes());
}

fn put32(d: &mut [u8], at: usize, v: u32) {
    d[at..at + 4].copy_from_slice(&v.to_le_bytes());
}

fn put64(d: &mut [u8], at: usize, v: u64) {
    d[at..at + 8].copy_from_slice(&v.to_le_bytes());
}

fn utf16(s: &str) -> Vec<u8> {
    s.encode_utf16().flat_map(|u| u.to_le_bytes()).collect()
}

fn round8(n: usize) -> usize {
    (n + 7) / 8 * 8
}

fn resident(typ: u32, name: &str, value: &[u8]) -> Vec<u8> {
    let n = utf16(name);
    let voff = round8(0x18 + n.len());
    let mut a = vec![0u8; round8(voff + value.len())];
    put32(&mut a, 0, typ);
    let len = a.len() as u32;
    put32(&mut a, 4, len);
    a[9] = (n.len() / 2) as u8;
    put16(&mut a, 0x0A, 0x18);
    put32(&mut a, 0x10, value.len() as u32);
    put16(&mut a, 0x14, voff as u16);
    a[0x18..0x18 + n.len()].copy_from_slice(&n);
    a[voff..voff + value.len()].copy_from_slice(value);
    a
}

fn in_runs(typ: u32, name: &str, pairs: &[u8], last_vcn: u64, size: u64, init: u64) -> Vec<u8> {
    let n = utf16(name);
    let map = round8(0x40 + n.len());
    let mut a = vec![0u8; round8(map + pairs.len())];
    put32(&mut a, 0, typ);
    let len = a.len() as u32;
    put32(&mut a, 4, len);
    a[8] = 1;
    a[9] = (n.len() / 2) as u8;
    put16(&mut a, 0x0A, 0x40);
    put64(&mut a, 0x18, last_vcn);
    put16(&mut a, 0x20, map as u16);
    put64(&mut a, 0x28, (last_vcn + 1) * 512);
    put64(&mut a, 0x30, size);
    put64(&mut a, 0x38, init);
    a[0x40..0x40 + n.len()].copy_from_slice(&n);
    a[map..map + pairs.len()].copy_from_slice(pairs);
    a
}

/// Puts the sequence number at the ends of the sectors, and what stood there aside.
fn seal(d: &mut [u8], usa: usize) {
    let sectors = d.len() / 512;
    put16(d, 4, usa as u16);
    put16(d, 6, sectors as u16 + 1);
    put16(d, usa, 0xABCD);
    for k in 0..sectors {
        let tail = k * 512 + 510;
        let (a, b) = (d[tail], d[tail + 1]);
        d[usa + 2 + 2 * k] = a;
        d[usa + 3 + 2 * k] = b;
        put16(d, tail, 0xABCD);
    }
}

fn plain_record(flags: u16, attrs: &[Vec<u8>]) -> Vec<u8> {
    let mut r = vec![0u8; 1024];
    r[0..4].copy_from_slice(b"FILE");
    put16(&mut r, 0x14, 0x38);
    put16(&mut r, 0x16, flags);
    let mut at = 0x38;
    for a in attrs {
        r[at..at + a.len()].copy_from_slice(a);
        at += a.len();
    }
    put32(&mut r, at, 0xFFFF_FFFF);
    put32(&mut r, 0x18, at as u32 + 8);
    put32(&mut r, 0x1C, 1024);
    r
}

fn record(flags: u16, attrs: &[Vec<u8>]) -> Vec<u8> {
    let mut r = plain_record(flags, attrs);
    seal(&mut r, 0x30);
    r
}

fn file_name(parent: u64, name: &str, namespace: u8, dir: bool, size: u64) -> Vec<u8> {
    let n = utf16(name);
    let mut v = vec![0u8; 0x42 + n.len()];
    put64(&mut v, 0, parent | 1 << 48);
    put64(&mut v, 0x10, 132_223_104_000_000_000);
    put64(&mut v, 0x30, size);
    put32(&mut v, 0x38, if dir { 0x1000_0000 } else { 0 });
    v[0x40] = (n.len() / 2) as u8;
    v[0x41] = namespace;
    v[0x42..].copy_from_slice(&n);
    v
}

fn index_entry(mft: u64, key: &[u8], subnode: Option<u64>) -> Vec<u8> {
    let body = round8(0x10 + key.len());
    let len = body + if subnode.is_some() { 8 } else { 0 };
    let mut e = vec![0u8; len];
    put64(&mut e, 0, mft | 1 << 48);
    put16(&mut e, 8, len as u16);
    put16(&mut e, 10, key.len() as u16);
    let mut flags = 0;
    if key.is_empty() {
        flags |= 2;
    }
    if let Some(v) = subnode {
        flags |= 1;
        put64(&mut e, body, v);
    }
    put16(&mut e, 12, flags);
    e[0x10..0x10 + key.len()].copy_from_slice(key);
    e
}

fn index_root(entries: &[Vec<u8>]) -> Vec<u8> {
    let all: Vec<u8> = entries.concat();
    let mut v = vec![0u8; 0x20];
    put32(&mut v, 0, 0x30);
    put32(&mut v, 8, 512);
    put32(&mut v, 0x10, 0x10);
    put32(&mut v, 0x14, 0x10 + all.len() as u32);
    put32(&mut v, 0x18, 0x10 + all.len() as u32);
    v.extend_from_slice(&all);
    v
}

fn index_block(entries: &[Vec<u8>]) -> Vec<u8> {
    let all: Vec<u8> = entries.concat();
    let mut d = vec![0u8; 512];
    d[0..4].copy_from_slice(b"INDX");
    put32(&mut d, 0x18, 0x28);
    put32(&mut d, 0x1C, 0x28 + all.len() as u32);
    put32(&mut d, 0x20, 0x200 - 0x18);
    d[0x40..0x40 + all.len()].copy_from_slice(&all);
    seal(&mut d, 0x28);
    d
}

const MFT_LCN: usize = 4;
const SECTORS: usize = 256;

/// A volume with a root directory that holds a small file, a large one with a hole, and a
/// directory with its entries in a block of its own.
fn volume() -> Disk {
    let mut d = vec![0u8; SECTORS * 512];
    d[3..11].copy_from_slice(b"NTFS    ");
    put16(&mut d, 0x0B, 512);
    d[0x0D] = 1;
    put64(&mut d, 0x28, SECTORS as u64);
    put64(&mut d, 0x30, MFT_LCN as u64);
    d[0x40] = 0xF6;
    d[0x44] = 1;
    let mut put = |no: usize, r: Vec<u8>| {
        let at = MFT_LCN * 512 + no * 1024;
        d[at..at + 1024].copy_from_slice(&r);
    };
    put(0, record(1, &[in_runs(0x80, "", &[0x11, 0x40, 0x04, 0], 63, 32768, 32768)]));
    put(5, record(3, &[resident(0x30, "", &file_name(5, ".", 3, true, 0)), resident(0x90, "$I30", &index_root(&[
        index_entry(6, &file_name(5, "a.txt", 1, false, 5), None),
        index_entry(8, &file_name(5, "big.bin", 1, false, 1600), None),
        index_entry(7, &file_name(5, "Folder", 1, true, 0), None),
        index_entry(7, &file_name(5, "Folder", 2, true, 0), None),
        index_entry(0, &[], None),
    ]))]));
    put(6, record(1, &[
        resident(0x30, "", &file_name(5, "a.txt", 1, false, 5)),
        resident(0x80, "", b"Hello"),
    ]));
    put(7, record(3, &[
        resident(0x30, "", &file_name(5, "Folder", 1, true, 0)),
        resident(0x90, "$I30", &index_root(&[index_entry(0, &[], Some(0))])),
        in_runs(0xA0, "$I30", &[0x11, 0x01, 0x64, 0], 0, 512, 512),
        resident(0xB0, "$I30", &[1, 0, 0, 0, 0, 0, 0, 0]),
    ]));
    put(8, record(1, &[
        resident(0x30, "", &file_name(5, "big.bin", 1, false, 1600)),
        in_runs(0x80, "", &[0x11, 0x02, 0x50, 0x01, 0x01, 0x11, 0x01, 0x10, 0], 3, 1600, 1550),
    ]));
    put(9, record(1, &[resident(0x80, "", b"inner")]));
    let mut list = vec![0u8; 0x40];
    for (at, vcn, no) in [(0, 1, 12), (0x20, 0, 11)] {
        put32(&mut list, at, 0x80);
        put16(&mut list, at + 4, 0x20);
        put64(&mut list, at + 8, vcn);
        put64(&mut list, at + 0x10, no | 1 << 48);
    }
    put(10, record(1, &[
        resident(0x20, "", &list),
        resident(0x30, "", &file_name(5, "parts", 1, false, 1024)),
    ]));
    put(11, record(1, &[in_runs(0x80, "", &[0x11, 0x01, 0x60, 0], 0, 1024, 1024)]));
    let mut tail = in_runs(0x80, "", &[0x11, 0x01, 0x50, 0], 1, 0, 0);
    put64(&mut tail, 0x10, 1);
    put(12, record(1, &[tail]));
    for i in 0..1024 {
        d[80 * 512 + i] = (i % 251) as u8;
    }
    for i in 0..512 {
        d[96 * 512 + i] = 7;
    }
    let block = index_block(&[
        index_entry(9, &file_name(7, "in.txt", 1, false, 5), None),
        index_entry(0, &[], None),
    ]);
    d[100 * 512..101 * 512].copy_from_slice(&block);
    Disk { data: d, failing: false }
}

fn mounted(d: Disk) -> (NtfsSuperBlock<Disk>, NtfsInode) {
    let mut why = LastError::new();
    match NtfsFileSystem.mount(Some(d), &mut why) {
        Ok(m) => m,
        Err(e) => panic!("{:?} {:?}", e, why.last_error()),
    }
}

fn must<T>(r: Result<T, VfsError>) -> T {
    match r {
        Ok(v) => v,
        Err(e) => panic!("{:?}", e),
    }
}

#[test]
fn ntfs_boot_sector() {
    let d = volume();
    let s = d.data[0..512].to_vec();
    let b = must(BootSector::parse_sector(&s, SECTORS as u64));
    assert_eq!((b.record_size, b.index_size, b.mft_lcn, b.max_records), (1024, 512, 4, 128));
    assert_eq!(b.cluster_size(), 512);
    assert_eq!(b.cluster_to_lba(9), 9);
    let mut bad = s.clone();
    bad[3] = b'X';
    assert_eq!(BootSector::parse_sector(&bad, 256).err(), Some(VfsError::InvalidDevice));
    let mut bad = s.clone();
    bad[0x0D] = 3;
    assert_eq!(BootSector::parse_sector(&bad, 256).err(), Some(VfsError::InvalidInput));
    assert_eq!(BootSector::parse_sector(&s, 255).err(), Some(VfsError::InvalidInput));
    let mut d = volume();
    let mut why = LastError::new();
    assert_eq!(must(BootSector::parse(&mut d, &mut why)), b);
    assert_eq!(why.last_error(), None);
}

#[test]
fn ntfs_mount_and_list() {
    let (mut sb, root) = mounted(volume());
    assert_eq!(NtfsFileSystem.name(), "ntfs");
    assert_eq!(root.ino(), 5);
    assert_eq!(root.file_type(), FileType::Directory);
    let names: Vec<(String, u64, FileType)> =
        must(root.readdir(&mut sb)).into_iter().map(|e| (e.name, e.ino, e.file_type)).collect();
    assert_eq!(names, vec![
        ("a.txt".to_string(), 6, FileType::Regular),
        ("big.bin".to_string(), 8, FileType::Regular),
        ("Folder".to_string(), 7, FileType::Directory),
    ]);
    let s = must(sb.statfs());
    assert_eq!((s.block_size, s.total_blocks), (512, 256));
    assert!(sb.sync_fs().is_ok());
}

#[test]
fn ntfs_small_file() {
    let (mut sb, root) = mounted(volume());
    let f = must(root.lookup(&mut sb, "A.TXT"));
    assert_eq!((f.ino(), f.size()), (6, 5));
    assert_eq!(must(f.read_at(&mut sb, 0, 100)), b"Hello");
    assert_eq!(must(f.read_at(&mut sb, 2, 2)), b"ll");
    assert_eq!(must(f.read_at(&mut sb, 5, 2)), b"");
    assert_eq!(must(f.read_at(&mut sb, 50, 2)), b"");
    let st = must(f.getattr());
    assert_eq!((st.ino, st.size, st.file_type, st.mtime), (6, 5, FileType::Regular, 1577836800));
    assert_eq!(root.lookup(&mut sb, "none").err(), Some(VfsError::NotFound));
    assert_eq!(f.lookup(&mut sb, "x").err(), Some(VfsError::IOError));
    assert_eq!(f.readdir(&mut sb).err(), Some(VfsError::IOError));
    assert_eq!(root.read_at(&mut sb, 0, 1).err(), Some(VfsError::IsADirectory));
}

#[test]
fn ntfs_large_file_with_a_hole() {
    let (mut sb, root) = mounted(volume());
    let f = must(root.lookup(&mut sb, "big.bin"));
    let v = must(f.read_at(&mut sb, 0, 5000));
    assert_eq!(v.len(), 1600);
    for i in 0..1024 {
        assert_eq!(v[i], (i % 251) as u8);
    }
    assert!(v[1024..1536].iter().all(|b| *b == 0));
    assert!(v[1536..1550].iter().all(|b| *b == 7));
    assert!(v[1550..1600].iter().all(|b| *b == 0));
    assert_eq!(must(f.read_at(&mut sb, 1023, 2)), vec![(1023 % 251) as u8, 0]);
}

#[test]
fn ntfs_file_in_parts() {
    let (mut sb, _root) = mounted(volume());
    let f = must(NtfsInode::load(&mut sb, 10));
    assert_eq!(f.size(), 1024);
    let v = must(f.read_at(&mut sb, 0, 1024));
    assert!(v[..512].iter().all(|b| *b == 7));
    for i in 0..512 {
        assert_eq!(v[512 + i], (i % 251) as u8);
    }
}

#[test]
fn ntfs_index_blocks() {
    let (mut sb, root) = mounted(volume());
    let dir = must(root.lookup(&mut sb, "folder"));
    let names: Vec<String> = must(dir.readdir(&mut sb)).into_iter().map(|e| e.name).collect();
    assert_eq!(names, vec!["in.txt".to_string()]);
    let f = must(dir.lookup(&mut sb, "in.txt"));
    assert_eq!(must(f.read_at(&mut sb, 0, 9)), b"inner");
}

#[test]
fn ntfs_is_read_only() {
    let (_sb, root) = mounted(volume());
    assert_eq!(root.write_at(0, b"x"), Err(VfsError::ReadOnly));
    assert_eq!(root.create("x").err(), Some(VfsError::ReadOnly));
    assert_eq!(root.mkdir("x").err(), Some(VfsError::ReadOnly));
    assert_eq!(root.unlink("x"), Err(VfsError::ReadOnly));
    assert_eq!(root.rmdir("x"), Err(VfsError::ReadOnly));
    assert_eq!(root.rename("x", "y"), Err(VfsError::ReadOnly));
    assert_eq!(root.truncate(0), Err(VfsError::ReadOnly));
}

#[test]
fn ntfs_mount_refusals() {
    let mut why = LastError::new();
    let r = NtfsFileSystem.mount(None::<Disk>, &mut why);
    assert_eq!(r.err(), Some(VfsError::InvalidDevice));
    let mut d = volume();
    d.data[3] = 0;
    assert_eq!(NtfsFileSystem.mount(Some(d), &mut why).err(), Some(VfsError::InvalidDevice));
    let mut d = volume();
    d.data[MFT_LCN * 512 + 510] ^= 1;
    assert!(NtfsFileSystem.mount(Some(d), &mut why).is_err());
    assert!(why.last_error().is_some());
    let mut d = volume();
    d.failing = true;
    assert!(NtfsFileSystem.mount(Some(d), &mut why).is_err());
    why.set_last_error(None);
    why.set_last_error_if_none("first");
    why.set_last_error_if_none("second");
    assert_eq!(why.last_error(), Some("first"));
}

#[test]
fn ntfs_fixups() {
    let mut r = plain_record(1, &[resident(0x80, "", b"x")]);
    r[510] = 0x11;
    r[511] = 0x22;
    r[1022] = 0x33;
    let before = r.clone();
    seal(&mut r, 0x30);
    let mut d = r.clone();
    let mut why = LastError::new();
    assert_eq!(usa_fixup(&mut d, 512, &mut why), Ok(()));
    assert_eq!(why.last_error(), None);
    assert_eq!(d[510..512], before[510..512]);
    assert_eq!(d[1022..1024], before[1022..1024]);
    let mut torn = r.clone();
    torn[1022] ^= 1;
    let mut kept = torn.clone();
    kept[510..512].copy_from_slice(&before[510..512]);
    assert_eq!(usa_fixup(&mut torn, 512, &mut why), Err(VfsError::IOError));
    assert_eq!(torn, kept);
    assert_eq!(why.last_error(), Some("usa_fixup: sector USN mismatch (torn write)"));
    let mut torn = r.clone();
    torn[510] ^= 1;
    let kept = torn.clone();
    why.set_last_error(None);
    assert_eq!(usa_fixup(&mut torn, 512, &mut why), Err(VfsError::IOError));
    assert_eq!(torn, kept);
    assert_eq!(why.last_error(), Some("usa_fixup: sector0 USN mismatch (torn write)"));
    for (len, text) in [
        (5, "usa_fixup: usa_off OOB"),
        (7, "usa_fixup: usa_count OOB"),
        (1000, "usa_fixup: record size not multiple of sector"),
        (512, "usa_fixup: usa_count != sectors+1"),
    ] {
        why.set_last_error(None);
        let mut part = r[..len].to_vec();
        assert_eq!(usa_fixup(&mut part, 512, &mut why), Err(VfsError::IOError));
        assert_eq!(why.last_error(), Some(text));
    }
    for (at, value, text) in [
        (4, 6, "usa_fixup: bad usa_off/count"),
        (6, 2000, "usa_fixup: USA array OOB"),
    ] {
        why.set_last_error(None);
        let mut bad = r.clone();
        put16(&mut bad, at, value);
        assert_eq!(usa_fixup(&mut bad, 512, &mut why), Err(VfsError::IOError));
        assert_eq!(why.last_error(), Some(text));
    }
}

#[test]
fn ntfs_mapping_pairs() {
    let r = must(decode_mapping_pairs(&[0x21, 0x18, 0x34, 0x56, 0x01, 0x04, 0x11, 0x02, 0xF0, 0], 0));
    assert_eq!(r.runs, vec![
        Run { vcn: 0, lcn: 0x5634, len: 0x18 },
        Run { vcn: 0x18, lcn: -1, len: 4 },
        Run { vcn: 0x1C, lcn: 0x5624, len: 2 },
    ]);
    assert_eq!(r.find(0x1C * 512, 512), Some(Run { vcn: 0x1C, lcn: 0x5624, len: 2 }));
    assert_eq!(r.find(0x1E * 512, 512), None);
    assert!(decode_mapping_pairs(&[0x11, 0x01], 0).is_err());
    assert!(decode_mapping_pairs(&[0x11, 0x00, 0x01, 0], 0).is_err());
    assert!(RunList { runs: vec![] }.find(0, 512).is_none());
}

#[test]
fn ntfs_attributes() {
    let rec = plain_record(1, &[
        resident(0x30, "", &file_name(5, "n", 1, false, 9)),
        resident(0x80, "s", b"abc"),
    ]);
    let a = must(iter_attrs(&rec));
    assert_eq!(a.len(), 2);
    assert_eq!((a[0].attr_type, a[0].resident, a[0].name.is_none()), (0x30, true, true));
    assert_eq!((a[1].name.as_deref(), &a[1].value[..]), (Some("s"), &b"abc"[..]));
    let f = must(parse_file_name(&a[0].value));
    assert_eq!((f.name.as_str(), f.size, f.namespace), ("n", 9, 1));
    assert!(parse_file_name(&a[0].value[..0x43]).is_err());
    let mut bad = rec.clone();
    put32(&mut bad, 0x38 + 4, 0x10);
    assert!(iter_attrs(&bad).is_err());
}

#[test]
fn ntfs_attribute_lists() {
    let mut v = vec![0u8; 0x20];
    put32(&mut v, 0, 0x80);
    put16(&mut v, 4, 0x20);
    put64(&mut v, 8, 77);
    put64(&mut v, 0x10, 42 | 3 << 48);
    let l = must(parse_attr_list(&v));
    assert_eq!(l.len(), 1);
    assert_eq!((l[0].attr_type, l[0].lowest_vcn, l[0].mft_ref), (0x80, 77, 42 | 3 << 48));
    put16(&mut v, 4, 0x40);
    assert!(parse_attr_list(&v).is_err());
}

#[test]
fn ntfs_numbers_and_text() {
    let d = [1, 2, 3, 4, 5, 6, 7, 8];
    assert_eq!(u16_at(&d, 6), Some(0x0807));
    assert_eq!(u16_at(&d, 7), None);
    assert_eq!(u32_at(&d, 4), Some(0x0807_0605));
    assert_eq!(u64_at(&d, 0), Some(0x0807_0605_0403_0201));
    assert_eq!(u64_at(&d, usize::MAX), None);
    assert_eq!(filetime_to_epoch(0), 0);
    assert_eq!(filetime_to_epoch(116_444_736_000_000_000), 0);
    assert_eq!(filetime_to_epoch(132_223_104_000_000_000), 1_577_836_800);
    assert_eq!(decode_utf16le(&utf16("uni-\u{540d}\u{1F600}")), "uni-\u{540d}\u{1F600}");
    assert_eq!(decode_utf16le(&[0x00, 0xD8]), "\u{fffd}");
}

#[test]
fn ntfs_exercise_texts() {
    assert!(lists_depth(8) && !lists_depth(9));
    assert!(is_shown("x") && !is_shown(".") && !is_shown(".."));
    assert_eq!(child_path("C>", "Yo"), "C>/Yo");
    let dir = DirEntry { ino: 7, name: "Yo".to_string(), file_type: FileType::Directory };
    assert_eq!(entry_text(0, &dir), "Yo/\n");
    let file = DirEntry { ino: 42, name: "f".to_string(), file_type: FileType::Regular };
    assert_eq!(entry_text(2, &file), "    f (42)\n");
    assert!(read_enough(0, 0) && read_enough(1 << 20, 5) && !read_enough(10, 5));
    assert_eq!(
        content_text("p", &Ok(b"ab".to_vec()), b"ab"),
        (true, "[ntfs] OK   content match p\n".to_string())
    );
    assert_eq!(
        content_text("p", &Ok(b"abc".to_vec()), b"ab"),
        (false, "[ntfs] FAIL content mismatch p got 3 bytes\n".to_string())
    );
    assert_eq!(
        content_text("p", &Err(VfsError::IOError), b"ab"),
        (false, "[ntfs] FAIL read p: IOError\n".to_string())
    );
    assert_eq!(
        failure_text("FAIL stat big.bin", VfsError::NotFound),
        "[ntfs] FAIL stat big.bin: NotFound\n"
    );
    assert_eq!(stat_text(5, 6), "[ntfs] stat big.bin size=5 mtime=6\n");
    assert_eq!(tail_sample(16 + 252), 1);
    assert_eq!(sample_text(true, Some(1), 1), "[ntfs] OK   big.bin tail\n");
    assert_eq!(sample_text(false, None, 0), "[ntfs] FAIL big.bin head\n");
    assert_eq!(
        write_text(&Err(VfsError::ReadOnly)),
        "[ntfs] OK   write rejected (read-only)\n"
    );
    assert_eq!(write_text(&Ok(4)), "[ntfs] FAIL write unexpectedly succeeded\n");
    assert_eq!(write_text(&Err(VfsError::IOError)), "[ntfs] FAIL write returned IOError\n");
    assert_eq!(done_text(3), "[ntfs] selftest done (3 mutation ops refused)\n");
}

#[test]
fn ntfs_holes_are_read_without_the_device() {
    let (mut sb, root) = mounted(volume());
    let f = must(root.lookup(&mut sb, "big.bin"));
    sb.device.failing = true;
    assert_eq!(must(f.read_at(&mut sb, 1024, 512)), vec![0u8; 512]);
    assert_eq!(must(f.read_at(&mut sb, 1560, 100)), vec![0u8; 40]);
    assert_eq!(f.read_at(&mut sb, 0, 10).err(), Some(VfsError::IOError));
    assert_eq!(f.read_at(&mut sb, 1024, 513).err(), Some(VfsError::IOError));
    assert_eq!(root.lookup(&mut sb, "big.bin").err(), Some(VfsError::IOError));
    assert_eq!(root.readdir(&mut sb).err(), Some(VfsError::IOError));
    let mut why = LastError::new();
    let d = Disk { data: volume().data, failing: true };
    assert_eq!(NtfsFileSystem.mount(Some(d), &mut why).err(), Some(VfsError::IOError));
}

fn mount_detail(d: Disk) -> (Option<VfsError>, Option<&'static str>) {
    let mut why = LastError::new();
    let e = NtfsFileSystem.mount(Some(d), &mut why).err();
    (e, why.last_error())
}

fn with_record_byte(no: usize, at: usize, flip: u8) -> Disk {
    let mut d = volume();
    d.data[MFT_LCN * 512 + no * 1024 + at] ^= flip;
    d
}

fn with_record_of(no: usize, other: usize) -> Disk {
    let mut d = volume();
    let from = MFT_LCN * 512 + other * 1024;
    let bytes = d.data[from..from + 1024].to_vec();
    let to = MFT_LCN * 512 + no * 1024;
    d.data[to..to + 1024].copy_from_slice(&bytes);
    d
}

#[test]
fn ntfs_mount_tells_the_innermost_cause() {
    let io = Some(VfsError::IOError);
    assert_eq!(mount_detail(volume()), (None, None));
    let mut d = volume();
    d.data[3] = 0;
    assert_eq!(mount_detail(d), (Some(VfsError::InvalidDevice), None));
    let mut d = volume();
    d.failing = true;
    assert_eq!(mount_detail(d), (io, Some("sector read: submit failed")));
    let mut d = volume();
    put64(&mut d.data, 0x30, SECTORS as u64 - 1);
    assert_eq!(mount_detail(d), (io, Some("sector read: io completion error")));
    let torn0 = Some("usa_fixup: sector0 USN mismatch (torn write)");
    assert_eq!(mount_detail(with_record_byte(0, 510, 1)), (io, torn0));
    let torn = Some("usa_fixup: sector USN mismatch (torn write)");
    assert_eq!(mount_detail(with_record_byte(0, 1022, 1)), (io, torn));
    let magic = Some("ntfs: MFT FILE magic miss (not 0x454C4946)");
    assert_eq!(mount_detail(with_record_byte(0, 0, 1)), (io, magic));
    let attrs = Some("ntfs: MFT attr parse failed");
    assert_eq!(mount_detail(with_record_byte(0, 0x15, 0xFF)), (io, attrs));
    let no_data = Some("ntfs: MFT DATA run not found (no non-resident $DATA)");
    assert_eq!(mount_detail(with_record_of(0, 6)), (io, no_data));
    assert_eq!(mount_detail(with_record_byte(5, 510, 1)), (io, torn0));
    let magic = Some("read_record_at: FILE magic miss");
    assert_eq!(mount_detail(with_record_byte(5, 0, 1)), (io, magic));
    let attrs = Some("ntfs: load root MFT 5 failed");
    assert_eq!(mount_detail(with_record_byte(5, 0x15, 0xFF)), (io, attrs));
    let file = Some("ntfs: root MFT 5 not a directory");
    assert_eq!(mount_detail(with_record_of(5, 6)), (io, file));
}

#[test]
fn ntfs_lookup_tells_the_cause() {
    let mut d = volume();
    d.data[100 * 512 + 510] ^= 1;
    let (mut sb, root) = mounted(d);
    assert_eq!(root.lookup(&mut sb, "none").err(), Some(VfsError::NotFound));
    assert_eq!(sb.why.last_error(), None);
    let dir = must(root.lookup(&mut sb, "folder"));
    assert_eq!(dir.lookup(&mut sb, "in.txt").err(), Some(VfsError::IOError));
    assert_eq!(sb.why.last_error(), Some("usa_fixup: sector0 USN mismatch (torn write)"));
    assert_eq!(dir.readdir(&mut sb).err(), Some(VfsError::IOError));
    assert_eq!(NtfsInode::load(&mut sb, 1 << 40).err(), Some(VfsError::NotFound));
}

#[test]
fn ntfs_is_a_kind_of_file_system() {
    assert_eq!(FileSystem::<Disk>::name(&NtfsFileSystem), "ntfs");
    match FileSystem::mount(&NtfsFileSystem, Some(volume())) {
        Ok(Mounted::Ntfs(mut sb, root)) => {
            assert_eq!(must(must(root.lookup(&mut sb, "a.txt")).read_at(&mut sb, 0, 9)), b"Hello");
        }
        _ => panic!("not mounted"),
    }
    let r = FileSystem::mount(&NtfsFileSystem, None::<Disk>);
    assert_eq!(r.err(), Some(VfsError::InvalidDevice));
}
