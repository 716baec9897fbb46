use kstorage::blockdriver::traits::{BlockDevice, IoBuffer, IoCompletions, IoRequest};
use kstorage::collections::SfnSet;
use kstorage::fat32::bitmap::AllocBitmap;
use kstorage::fat32::bpb::parse_bpb;
use kstorage::fat32::chain_cache::walk_table;
use kstorage::fat32::dirent::{
    decode_sfn, decode_vfat_name, decode_volume_label, encode_vfat_entries, first_clus_from_entry,
    lfn_slot_count, make_sfn_bytes, mtime_from_entry, needs_vfat, nt_case_flags,
    set_first_clus_in_entry, sfn_from_name, vfat_checksum,
};
use kstorage::fat32::inode::Fat32Inode;
use kstorage::fat32::io::{
    read_sectors, read_sectors_batch, write_sectors, write_sectors_batch, SectorRun,
};
use kstorage::fat32::mount::Fat32FileSystem;
use kstorage::fat32::superblock::Fat32SuperBlock;
use kstorage::fat32::transfer::run_length;
use kstorage::vfs::{FileType, VfsError};

const RESERVED: usize = 32;
const FAT_SECTORS: usize = 4;
const CLUSTERS: usize = 400;

/// A device in memory, which can be told to fail.
struct Disk {
    data: Vec<u8>,
    failing: bool,
}

impl BlockDevice for Disk {
    fn submit(&mut self, reqs: &mut Vec<IoRequest>) -> Result<IoCompletions, &'static str> {
        if self.failing {
            return Err("device failure");
        }
        let mut done = IoCompletions { completed: 0, errors: 0 };
        for r in reqs.iter_mut() {
            let from = r.lba as usize * 512;
            let to = from + r.count as usize * 512;
            if to > self.data.len() {
                done.errors += 1;
                continue;
            }
            match &mut r.buffer {
                IoBuffer::Buf(b) if !r.is_write => b.copy_from_slice(&self.data[from..to]),
                IoBuffer::Buf(b) => self.data[from..to].copy_from_slice(b),
                IoBuffer::ConstBuf(b) => self.data[from..to].copy_from_slice(b),
                IoBuffer::Phys(_, _) => {}
            }
            done.completed += 1;
        }
        Ok(done)
    }

    fn sector_count(&self) -> u64 {
        (self.data.len() / 512) as u64
    }

    fn model_string(&self) -> &str {
        "RAM"
    }

    fn sector_size(&self) -> usize {
        512
    }
}

fn put16(d: &mut [u8], at: usize, v: u16) {
    d[at..at + 2].copy_from_slice(&v.to_le_bytes());
}

fn put32(d: &mut [u8], at: usize, v: u32) {
    d[at..at + 4].copy_from_slice(&v.to_le_bytes());
}

/// An empty volume: one sector to a cluster, two tables, the root in cluster 2.
fn blank() -> Disk {
    let sectors = RESERVED + 2 * FAT_SECTORS + CLUSTERS;
    let mut d = vec![0u8; sectors * 512];
    put16(&mut d, 0x0B, 512);
    d[0x0D] = 1;
    put16(&mut d, 0x0E, RESERVED as u16);
    d[0x10] = 2;
    put32(&mut d, 0x20, sectors as u32);
    put32(&mut d, 0x24, FAT_SECTORS as u32);
    put32(&mut d, 0x2C, 2);
    put16(&mut d, 0x30, 1);
    d[510] = 0x55;
    d[511] = 0xAA;
    put32(&mut d, 512, 0x4161_5252);
    put32(&mut d, 512 + 484, 0x6141_7272);
    put32(&mut d, 512 + 488, 0xFFFF_FFFF);
    put32(&mut d, 512 + 492, 7);
    put32(&mut d, 512 + 508, 0xAA55_0000);
    for t in 0..2 {
        let at = (RESERVED + t * FAT_SECTORS) * 512;
        put32(&mut d, at, 0x0FFF_FFF8);
        put32(&mut d, at + 4, 0x0FFF_FFFF);
        put32(&mut d, at + 8, 0x0FFF_FFFF);
    }
    Disk { data: d, failing: false }
}

fn mounted(d: Disk) -> (Fat32SuperBlock<Disk>, Fat32Inode) {
    match Fat32FileSystem.mount(Some(d)) {
        Ok(m) => m,
        Err(e) => panic!("{:?}", e),
    }
}

fn must<T>(r: Result<T, VfsError>) -> T {
    match r {
        Ok(v) => v,
        Err(e) => panic!("{:?}", e),
    }
}

fn contents(sb: &mut Fat32SuperBlock<Disk>, f: &Fat32Inode) -> Vec<u8> {
    let mut buf = vec![0u8; f.size as usize + 10];
    let n = must(f.read_at(sb, 0, &mut buf));
    buf.truncate(n);
    buf
}

fn listed(sb: &mut Fat32SuperBlock<Disk>, dir: &mut Fat32Inode) -> Vec<String> {
    let mut v: Vec<String> = must(dir.readdir(sb)).into_iter().map(|e| e.name).collect();
    v.sort();
    v
}

fn pattern(n: usize) -> Vec<u8> {
    (0..n).map(|i| (i % 251) as u8).collect()
}

#[test]
fn fat32_geometry_is_read() {
    let mut d = blank();
    let b = must(parse_bpb(&mut d));
    assert_eq!((b.total_clus, b.first_data_sec, b.byts_per_clus), (400, 40, 512));
    assert_eq!(b.cluster_to_lba(2), 40);
    assert_eq!(b.cluster_to_lba(5), 43);
    assert_eq!(b.fat_entry_position(130), (1, 8));
    assert_eq!(b.fat_sector_lba(1, 2), 38);
    assert_eq!(b.active_fat_idx(), 0);
    assert!(b.fsinfo_is_valid());
}

#[test]
fn fat32_mount_refusals() {
    let r = Fat32FileSystem.mount(None::<Disk>);
    assert_eq!(r.err(), Some(VfsError::InvalidDevice));
    let mut d = blank();
    d.data[510] = 0;
    assert_eq!(Fat32FileSystem.mount(Some(d)).err(), Some(VfsError::InvalidDevice));
    let mut d = blank();
    d.data[0x0D] = 3;
    assert_eq!(Fat32FileSystem.mount(Some(d)).err(), Some(VfsError::InvalidInput));
    let mut d = blank();
    d.failing = true;
    assert_eq!(Fat32FileSystem.mount(Some(d)).err(), Some(VfsError::IOError));
    assert_eq!(Fat32FileSystem.name(), "fat32");
}

#[test]
fn fat32_mount_counts_free_clusters() {
    let (mut sb, mut root) = mounted(blank());
    assert_eq!(sb.free_clus_count, 399);
    assert_eq!(sb.next_alloc_hint, 7);
    let s = sb.statfs();
    assert_eq!((s.block_size, s.total_blocks, s.free_blocks), (512, 400, 399));
    assert_eq!(root.file_type(), FileType::Directory);
    assert_eq!(root.ino(), 1);
    assert!(listed(&mut sb, &mut root).is_empty());
    assert_ne!(sb.device.data[0x41] & 1, 0);
}

#[test]
fn fat32_write_then_read() {
    let (mut sb, mut root) = mounted(blank());
    let mut f = must(root.create(&mut sb, "Hello World.txt"));
    let data = pattern(2000);
    assert_eq!(f.write_at(&mut sb, 0, &data, Some(1_000_000_000)), Ok(2000));
    assert_eq!(f.size(), 2000);
    assert_eq!(contents(&mut sb, &f), data);
    assert_eq!(f.write_at(&mut sb, 100, b"XYZ", None), Ok(3));
    let mut part = [0u8; 5];
    assert_eq!(f.read_at(&mut sb, 99, &mut part), Ok(5));
    assert_eq!(part, [99, b'X', b'Y', b'Z', 103]);
    assert_eq!(f.read_at(&mut sb, 5000, &mut part), Ok(0));
    assert_eq!(sb.free_clus_count, 395);
}

#[test]
fn fat32_files_outlive_a_mount() {
    let (mut sb, mut root) = mounted(blank());
    let mut f = must(root.create(&mut sb, "a long name.data"));
    let data = pattern(5000);
    must(f.write_at(&mut sb, 0, &data, Some(0)));
    must(f.flush(&mut sb));
    f.close(&mut sb);
    must(sb.shutdown());
    assert_eq!(sb.device.data[0x41] & 1, 0);
    let first = sb.device.data[RESERVED * 512..(RESERVED + FAT_SECTORS) * 512].to_vec();
    let second = sb.device.data[(RESERVED + FAT_SECTORS) * 512..(RESERVED + 8) * 512].to_vec();
    assert_eq!(first, second);
    let free = sb.free_clus_count;
    let (mut sb, mut root) = mounted(sb.device);
    assert_eq!(sb.free_clus_count, free);
    assert_eq!(listed(&mut sb, &mut root), vec!["a long name.data".to_string()]);
    let g = must(root.lookup(&mut sb, "A LONG NAME.DATA"));
    assert_eq!(contents(&mut sb, &g), data);
}

#[test]
fn fat32_sparse_write_reads_zeros() {
    let (mut sb, mut root) = mounted(blank());
    let mut f = must(root.create(&mut sb, "s"));
    must(f.write_at(&mut sb, 0, b"ab", None));
    must(f.write_at(&mut sb, 1500, b"z", None));
    let v = contents(&mut sb, &f);
    assert_eq!(v.len(), 1501);
    assert_eq!(&v[0..2], b"ab");
    assert!(v[2..1500].iter().all(|b| *b == 0));
    assert_eq!(v[1500], b'z');
}

#[test]
fn fat32_names_are_unique() {
    let (mut sb, mut root) = mounted(blank());
    must(root.create(&mut sb, "One.txt"));
    assert_eq!(root.create(&mut sb, "ONE.TXT").err(), Some(VfsError::AlreadyExists));
    assert_eq!(root.mkdir(&mut sb, "one.txt").err(), Some(VfsError::AlreadyExists));
    assert_eq!(root.lookup(&mut sb, "two").err(), Some(VfsError::NotFound));
    let mut f = must(root.lookup(&mut sb, "one.txt"));
    assert_eq!(f.lookup(&mut sb, "x").err(), Some(VfsError::NotADirectory));
    assert_eq!(f.create(&mut sb, "x").err(), Some(VfsError::NotADirectory));
    assert_eq!(f.readdir(&mut sb).err(), Some(VfsError::NotADirectory));
}

#[test]
fn fat32_directories() {
    let (mut sb, mut root) = mounted(blank());
    let mut d = must(root.mkdir(&mut sb, "Some Directory"));
    must(d.create(&mut sb, "inner.txt"));
    assert_eq!(listed(&mut sb, &mut d), vec!["inner.txt".to_string()]);
    assert_eq!(root.rmdir(&mut sb, "Some Directory"), Err(VfsError::NotEmpty));
    assert_eq!(root.rmdir(&mut sb, "."), Err(VfsError::InvalidInput));
    assert_eq!(root.rmdir(&mut sb, "none"), Err(VfsError::NotFound));
    assert_eq!(d.unlink(&mut sb, "inner.txt"), Ok(()));
    assert_eq!(root.rmdir(&mut sb, "Some Directory"), Ok(()));
    assert!(listed(&mut sb, &mut root).is_empty());
    assert_eq!(sb.free_clus_count, 398);
    d.close(&mut sb);
    assert_eq!(sb.free_clus_count, 399);
}

#[test]
fn fat32_parent_directory() {
    let (mut sb, mut root) = mounted(blank());
    let mut d = must(root.mkdir(&mut sb, "d"));
    let at = (40 + d.first_clus as usize - 2) * 512 + 32;
    sb.device.data[at..at + 11].copy_from_slice(b"..         ");
    put16(&mut sb.device.data, at + 0x1A, 0);
    let up = must(d.lookup(&mut sb, ".."));
    assert_eq!(up.file_type(), FileType::Directory);
    assert_eq!(up.first_clus, 2);
}

#[test]
fn fat32_unlink_gives_room_back() {
    let (mut sb, mut root) = mounted(blank());
    let mut f = must(root.create(&mut sb, "big"));
    must(f.write_at(&mut sb, 0, &pattern(512 * 10), None));
    assert_eq!(sb.free_clus_count, 389);
    f.close(&mut sb);
    assert_eq!(root.unlink(&mut sb, "big"), Ok(()));
    assert_eq!(sb.free_clus_count, 399);
    assert_eq!(root.unlink(&mut sb, "big"), Err(VfsError::NotFound));
    must(root.mkdir(&mut sb, "d"));
    assert_eq!(root.unlink(&mut sb, "d"), Err(VfsError::IsADirectory));
}

#[test]
fn fat32_truncate() {
    let (mut sb, mut root) = mounted(blank());
    let mut f = must(root.create(&mut sb, "t"));
    must(f.write_at(&mut sb, 0, &pattern(2000), None));
    assert_eq!(f.truncate(&mut sb, 600, None), Ok(()));
    assert_eq!(contents(&mut sb, &f), pattern(600));
    assert_eq!(sb.free_clus_count, 397);
    assert_eq!(f.truncate(&mut sb, 1100, None), Ok(()));
    assert_eq!(f.size(), 1100);
    assert_eq!(f.truncate(&mut sb, 0, None), Ok(()));
    assert_eq!(f.size(), 0);
    assert_eq!(sb.free_clus_count, 399);
    assert_eq!(root.truncate(&mut sb, 0, None), Err(VfsError::IsADirectory));
    assert_eq!(f.truncate(&mut sb, 0x1_0000_0000, None), Err(VfsError::FileTooLarge));
}

#[test]
fn fat32_full_volume() {
    let (mut sb, mut root) = mounted(blank());
    let mut f = must(root.create(&mut sb, "f"));
    assert_eq!(f.write_at(&mut sb, 0, &pattern(400 * 512), None), Err(VfsError::NoSpace));
    assert_eq!(f.write_at(&mut sb, 0, &pattern(399 * 512), None), Ok(399 * 512));
    assert_eq!(sb.free_clus_count, 0);
    assert_eq!(sb.alloc_clusters(1), Err(VfsError::NoSpace));
    assert_eq!(contents(&mut sb, &f), pattern(399 * 512));
}

#[test]
fn fat32_rename() {
    let (mut sb, mut root) = mounted(blank());
    let mut f = must(root.create(&mut sb, "old name.txt"));
    must(f.write_at(&mut sb, 0, b"payload", None));
    assert_eq!(root.rename(&mut sb, "old name.txt", "New Name.txt"), Ok(()));
    assert_eq!(listed(&mut sb, &mut root), vec!["New Name.txt".to_string()]);
    let g = must(root.lookup(&mut sb, "new name.txt"));
    assert_eq!(contents(&mut sb, &g), b"payload".to_vec());
    assert_eq!(root.rename(&mut sb, "none", "x"), Err(VfsError::NotFound));
}

#[test]
fn fat32_rename_across_directories() {
    let (mut sb, mut root) = mounted(blank());
    let mut d = must(root.mkdir(&mut sb, "dir"));
    let mut f = must(root.create(&mut sb, "f.txt"));
    must(f.write_at(&mut sb, 0, b"moved", None));
    assert_eq!(
        root.rename_across_dirs(&mut sb, &mut d, false, "f.txt", "g.txt"),
        Err(VfsError::CrossDeviceLink)
    );
    assert_eq!(
        root.rename_across_dirs(&mut sb, &mut f, true, "f.txt", "g.txt"),
        Err(VfsError::NotADirectory)
    );
    assert_eq!(
        root.rename_across_dirs(&mut sb, &mut d, true, "..", "g.txt"),
        Err(VfsError::InvalidInput)
    );
    assert_eq!(root.rename_across_dirs(&mut sb, &mut d, true, "f.txt", "g.txt"), Ok(()));
    assert_eq!(listed(&mut sb, &mut root), vec!["dir".to_string()]);
    let g = must(d.lookup(&mut sb, "g.txt"));
    assert_eq!(contents(&mut sb, &g), b"moved".to_vec());
}

#[test]
fn fat32_many_files_grow_a_directory() {
    let (mut sb, mut root) = mounted(blank());
    for i in 0..40 {
        must(root.create(&mut sb, &format!("FILE{}.TXT", i)));
    }
    assert_eq!(listed(&mut sb, &mut root).len(), 40);
    must(root.lookup(&mut sb, "file39.txt"));
    assert_eq!(must(sb.chain_len(2)), 3);
    must(sb.sync_all());
    let (mut sb, mut root) = mounted(sb.device);
    assert_eq!(listed(&mut sb, &mut root).len(), 40);
}

#[test]
fn fat32_allocation_and_release() {
    let (mut sb, _root) = mounted(blank());
    let a = must(sb.alloc_clusters(3));
    assert_eq!(a, vec![7, 8, 9]);
    assert_eq!(sb.free_clus_count, 396);
    for c in &a {
        assert!(must(sb.read_fat_entry(*c)) >= 0x0FFF_FFF8);
    }
    must(sb.write_fat_entry(7, 8));
    must(sb.write_fat_entry(8, 9));
    assert_eq!(must(sb.chain_len(7)), 3);
    assert_eq!(must(sb.chain_cluster_at(7, 2)), 9);
    let one = must(sb.alloc_cluster());
    assert_eq!(one, 10);
    must(sb.extend_chain(7, 2));
    assert_eq!(must(sb.chain_len(7)), 5);
    must(sb.truncate_chain(7, 1));
    assert_eq!(must(sb.chain_len(7)), 1);
    must(sb.free_chain(7));
    assert_eq!(must(sb.read_fat_entry(7)), 0);
    assert_eq!(sb.free_clus_count, 398);
    must(sb.flush_fat_cache());
    assert_eq!(must(sb.scan_free_clusters()), 398);
}

#[test]
fn fat32_clusters() {
    let (mut sb, _root) = mounted(blank());
    must(sb.write_cluster(5, &pattern(512)));
    assert_eq!(must(sb.read_cluster(5)), pattern(512));
    assert_eq!(sb.device.data[43 * 512..44 * 512], pattern(512)[..]);
    must(sb.zero_cluster(5));
    assert_eq!(must(sb.read_cluster(5)), vec![0; 512]);
    sb.device.failing = true;
    assert_eq!(sb.read_cluster(5).err(), Some(VfsError::IOError));
}

#[test]
fn fat32_table_walk() {
    let mut t = vec![0u8; 40];
    put32(&mut t, 8, 5);
    put32(&mut t, 20, 3);
    put32(&mut t, 12, 0x0FFF_FFFF);
    assert_eq!(walk_table(&t, 8, 2), Ok(vec![2, 5, 3]));
    put32(&mut t, 12, 2);
    assert!(walk_table(&t, 8, 2).is_err());
}

#[test]
fn fat32_sector_transfers() {
    let mut d = blank();
    assert_eq!(write_sectors(&mut d, 50, 2, &pattern(1024)), Ok(()));
    assert_eq!(must(read_sectors(&mut d, 50, 2)), pattern(1024));
    let runs = vec![
        SectorRun { lba: 60, count: 1, data: vec![1; 512] },
        SectorRun { lba: 70, count: 2, data: vec![2; 1024] },
    ];
    assert_eq!(write_sectors_batch(&mut d, &runs), Ok(()));
    let got = must(read_sectors_batch(&mut d, &vec![(60, 1), (71, 1)]));
    assert_eq!(got, vec![vec![1; 512], vec![2; 512]]);
    assert_eq!(read_sectors(&mut d, 1_000_000, 1).err(), Some(VfsError::IOError));
    d.failing = true;
    assert_eq!(write_sectors(&mut d, 50, 1, &[0; 512]), Err(VfsError::IOError));
}

#[test]
fn fat32_bitmap() {
    let mut b = AllocBitmap::new(100);
    assert!(!b.get(70));
    b.set(70);
    assert!(b.get(70));
    assert!(!b.get(69));
    b.clear(70);
    assert!(!b.get(70));
    assert_eq!(AllocBitmap::bit_index(2, 100), Some(0));
    assert_eq!(AllocBitmap::bit_index(101, 100), Some(99));
    assert_eq!(AllocBitmap::bit_index(102, 100), None);
    assert_eq!(AllocBitmap::bit_index(1, 100), None);
    for i in 0..6 {
        b.set(i);
    }
    assert_eq!(b.pick(100, 2, 2), Some(vec![6, 7]));
    assert_eq!(b.pick(100, 2, 95), None);
    let mut small = AllocBitmap::new(10);
    for i in 3..8 {
        small.set(i);
    }
    assert_eq!(small.pick(10, 8, 3), Some(vec![0, 1, 2]));
    small.set(1);
    assert_eq!(small.pick(10, 8, 3), Some(vec![8, 9, 0]));
    assert_eq!(small.pick(10, 8, 2), Some(vec![8, 9]));
    assert_eq!(small.pick(10, 8, 5), None);
}

#[test]
fn fat32_short_names() {
    assert_eq!(&make_sfn_bytes("read", "me"), b"READ    ME ");
    assert_eq!(decode_sfn(b"README  TXT"), "readme.txt");
    assert_eq!(decode_sfn(b"NOEXT      "), "noext");
    assert_eq!(decode_volume_label(b"MY DISK    "), "MY DISK");
    let free = SfnSet::of(&vec![]);
    let used = SfnSet::of(&vec![*b"README  TXT"]);
    assert_eq!(sfn_from_name("readme.txt", &free), Some(*b"README  TXT"));
    assert_eq!(sfn_from_name("readme.txt", &used), Some(*b"README~1TXT"));
    assert_eq!(sfn_from_name("", &free), None);
    assert!(!needs_vfat("README.TXT"));
    assert!(needs_vfat("a long name.txt"));
    assert!(!needs_vfat("."));
}

#[test]
fn fat32_long_names() {
    let name = "A name with \u{e9} and \u{1F600} in it.txt";
    let sum = vfat_checksum(b"ANAMEW~1TXT");
    let entries = encode_vfat_entries(name, sum);
    assert_eq!(entries.len(), lfn_slot_count(name));
    assert_eq!(entries.len(), 3);
    let ordinals: Vec<u8> = entries.iter().map(|e| e[0]).collect();
    assert_eq!(ordinals, vec![1, 2, 0x43]);
    assert!(entries.iter().all(|e| e[0x0B] == 0x0F && e[13] == sum));
    assert_eq!(decode_vfat_name(&entries), name);
    assert_eq!(vfat_checksum(b"FILENAMEEXT"), {
        let mut s: u8 = 0;
        for c in b"FILENAMEEXT" {
            s = (s >> 1 | s << 7).wrapping_add(*c);
        }
        s
    });
}

#[test]
fn fat32_entry_fields() {
    let mut e = [0u8; 32];
    set_first_clus_in_entry(&mut e, 0x0123_4567);
    assert_eq!(first_clus_from_entry(&e), 0x0123_4567);
    assert_eq!((e[0x1A], e[0x1B], e[0x14], e[0x15]), (0x67, 0x45, 0x23, 0x01));
    put16(&mut e, 0x18, (44 << 9) | (2 << 5) | 29);
    put16(&mut e, 0x16, (12 << 11) | (34 << 5) | 28);
    assert_eq!(mtime_from_entry(&e), 1_709_210_096);
    put16(&mut e, 0x18, 0);
    assert_eq!(mtime_from_entry(&e), 0);
}

#[test]
fn fat32_runs_of_clusters() {
    assert_eq!(run_length(&vec![5, 6, 7, 9], 0, 100), 3);
    assert_eq!(run_length(&vec![5, 6, 7, 9], 0, 2), 2);
    assert_eq!(run_length(&vec![5, 6, 7, 9], 3, 100), 1);
}

#[test]
fn fat32_open_handles_follow_names() {
    let (mut sb, mut root) = mounted(blank());
    let f = must(root.create(&mut sb, "f"));
    assert!(!f.unlinked(&sb));
    assert_eq!(root.unlink(&mut sb, "f"), Ok(()));
    assert!(f.unlinked(&sb));
    let ino = sb.ino_for(2, "Name");
    assert_eq!(sb.ino_for(2, "Name"), ino);
    assert_eq!(sb.ino_for(2, "NAME"), ino);
    assert_ne!(sb.ino_for(3, "Name"), ino);
    assert_ne!(sb.ino_for(2, "Other"), ino);
    assert_eq!(sb.ino_for(2, "name"), ino);
    f.close(&mut sb);
}

#[test]
fn fat32_last_handle_frees_the_clusters() {
    let (mut sb, mut root) = mounted(blank());
    let mut f = must(root.create(&mut sb, "f"));
    must(f.write_at(&mut sb, 0, &pattern(1500), None));
    let g = must(root.lookup(&mut sb, "F"));
    let h = must(root.lookup(&mut sb, "f"));
    assert_eq!(sb.free_clus_count, 396);
    assert_eq!(root.unlink(&mut sb, "f"), Ok(()));
    f.close(&mut sb);
    assert_eq!(sb.free_clus_count, 396);
    assert_eq!(contents(&mut sb, &g), pattern(1500));
    g.close(&mut sb);
    assert_eq!(sb.free_clus_count, 396);
    assert_eq!(contents(&mut sb, &h), pattern(1500));
    h.close(&mut sb);
    assert_eq!(sb.free_clus_count, 399);
}

#[test]
fn fat32_handle_without_clusters_is_closed_last() {
    let (mut sb, mut root) = mounted(blank());
    let mut f = must(root.create(&mut sb, "f"));
    let g = must(root.lookup(&mut sb, "f"));
    must(f.write_at(&mut sb, 0, &pattern(1500), None));
    assert_eq!(root.unlink(&mut sb, "f"), Ok(()));
    f.close(&mut sb);
    assert_eq!(sb.free_clus_count, 396);
    g.close(&mut sb);
    assert_eq!(sb.free_clus_count, 399);
}

#[test]
fn fat32_overwritten_file_is_freed_once() {
    let (mut sb, mut root) = mounted(blank());
    let mut f = must(root.create(&mut sb, "first file"));
    must(f.write_at(&mut sb, 0, &pattern(1500), None));
    let mut g = must(root.create(&mut sb, "other file"));
    must(g.write_at(&mut sb, 0, b"kept", None));
    assert_eq!(sb.free_clus_count, 395);
    assert_eq!(root.rename(&mut sb, "other file", "first file"), Ok(()));
    assert_eq!(sb.free_clus_count, 398);
    assert!(f.unlinked(&sb));
    f.close(&mut sb);
    assert_eq!(sb.free_clus_count, 398);
    let k = must(root.lookup(&mut sb, "first file"));
    assert_eq!(contents(&mut sb, &k), b"kept".to_vec());
}

#[test]
fn fat32_handles_follow_a_rename() {
    let (mut sb, mut root) = mounted(blank());
    let mut f = must(root.create(&mut sb, "first file"));
    must(f.write_at(&mut sb, 0, &pattern(1500), None));
    assert_eq!(root.rename(&mut sb, "first file", "other file"), Ok(()));
    assert!(!f.unlinked(&sb));
    assert_eq!(root.unlink(&mut sb, "other file"), Ok(()));
    assert!(f.unlinked(&sb));
    assert_eq!(contents(&mut sb, &f), pattern(1500));
    assert_eq!(sb.free_clus_count, 396);
    f.close(&mut sb);
    assert_eq!(sb.free_clus_count, 399);
}

#[test]
fn fat32_attributes() {
    let (mut sb, mut root) = mounted(blank());
    let mut f = must(root.create(&mut sb, "f"));
    must(f.write_at(&mut sb, 0, b"12345", Some(77)));
    let st = f.getattr();
    assert_eq!((st.size, st.file_type, st.mtime), (5, FileType::Regular, 77));
    assert_eq!(f.canonical_name("ABc"), "abc");
    assert_eq!(f.read_at(&mut sb, 2, &mut [0; 2]), Ok(2));
    let st = root.getattr();
    assert_eq!((st.size, st.file_type), (0, FileType::Directory));
    assert_eq!(root.read_at(&mut sb, 0, &mut [0; 2]), Err(VfsError::IsADirectory));
}

/// The entry of the root directory that has the short name.
fn root_entry(sb: &Fat32SuperBlock<Disk>, sfn: &[u8; 11]) -> Vec<u8> {
    let root = &sb.device.data[40 * 512..41 * 512];
    match root.chunks(32).find(|e| &e[0..11] == sfn) {
        Some(e) => e.to_vec(),
        None => panic!("no entry"),
    }
}

#[test]
fn fat32_entries_keep_the_case_of_short_names() {
    assert_eq!(nt_case_flags("readme.txt"), 0x18);
    assert_eq!(nt_case_flags("readme.TXT"), 0x08);
    assert_eq!(nt_case_flags("README.txt"), 0x10);
    assert_eq!(nt_case_flags("Readme.txt"), 0x10);
    assert_eq!(nt_case_flags("README.TXT"), 0);
    assert_eq!(nt_case_flags("noext"), 0x08);
    assert_eq!(nt_case_flags("1.2"), 0);
    let (mut sb, mut root) = mounted(blank());
    must(root.create(&mut sb, "readme.txt"));
    must(root.mkdir(&mut sb, "sub"));
    assert_eq!(root_entry(&sb, b"README  TXT")[12], 0x18);
    assert_eq!(root_entry(&sb, b"SUB        ")[12], 0);
    must(root.rename(&mut sb, "readme.txt", "OTHER.txt"));
    assert_eq!(root_entry(&sb, b"OTHER   TXT")[12], 0x10);
    let mut sub = must(root.lookup(&mut sb, "sub"));
    must(sub.create(&mut sb, "moved"));
    must(sub.rename_across_dirs(&mut sb, &mut root, true, "moved", "back"));
    assert_eq!(root_entry(&sb, b"BACK       ")[12], 0x08);
    must(root.create(&mut sb, "quite a long name"));
    assert_eq!(listed(&mut sb, &mut root), vec!["back", "other.txt", "quite a long name", "sub"]);
}

#[test]
fn fat32_failures_of_the_device_are_errors() {
    let (mut sb, mut root) = mounted(blank());
    let mut f = must(root.create(&mut sb, "a.txt"));
    must(f.write_at(&mut sb, 0, &pattern(1200), None));
    assert_eq!(listed(&mut sb, &mut root), vec!["a.txt"]);
    sb.device.failing = true;
    assert_eq!(listed(&mut sb, &mut root), vec!["a.txt"]);
    assert!(root.lookup(&mut sb, "a.txt").is_ok());
    let mut buf = vec![0u8; 10];
    assert_eq!(f.read_at(&mut sb, 0, &mut buf).err(), Some(VfsError::IOError));
    assert_eq!(root.create(&mut sb, "b.txt").err(), Some(VfsError::IOError));
    assert_eq!(root.mkdir(&mut sb, "d").err(), Some(VfsError::IOError));
    assert_eq!(root.unlink(&mut sb, "a.txt").err(), Some(VfsError::IOError));
    assert_eq!(root.rename(&mut sb, "a.txt", "c.txt").err(), Some(VfsError::IOError));
    assert_eq!(root.create(&mut sb, "A.TXT").err(), Some(VfsError::AlreadyExists));
    sb.device.failing = false;
    assert_eq!(contents(&mut sb, &f), pattern(1200));
}

#[test]
fn fat32_refusals_leave_everything() {
    let (mut sb, mut root) = mounted(blank());
    let mut d = must(root.mkdir(&mut sb, "dir"));
    let mut f = must(d.create(&mut sb, "inner.txt"));
    must(f.write_at(&mut sb, 0, &pattern(700), None));
    must(root.create(&mut sb, "file"));
    must(sb.sync_all());
    let disk = sb.device.data.clone();
    let free = sb.free_clus_count;
    assert_eq!(root.rmdir(&mut sb, "dir"), Err(VfsError::NotEmpty));
    assert_eq!(root.rmdir(&mut sb, "file"), Err(VfsError::NotADirectory));
    assert_eq!(root.rmdir(&mut sb, "none"), Err(VfsError::NotFound));
    assert_eq!(root.unlink(&mut sb, "dir"), Err(VfsError::IsADirectory));
    assert_eq!(root.unlink(&mut sb, "none"), Err(VfsError::NotFound));
    assert_eq!(root.rename(&mut sb, "none", "x"), Err(VfsError::NotFound));
    assert_eq!(
        root.rename_across_dirs(&mut sb, &mut d, true, "none", "x"),
        Err(VfsError::NotFound)
    );
    must(sb.sync_all());
    assert_eq!(sb.device.data, disk);
    assert_eq!(sb.free_clus_count, free);
    assert_eq!(listed(&mut sb, &mut root), vec!["dir", "file"]);
    assert_eq!(listed(&mut sb, &mut d), vec!["inner.txt"]);
    assert_eq!(contents(&mut sb, &f), pattern(700));
}

#[test]
fn fat32_lack_of_room_leaves_everything() {
    let (mut sb, mut root) = mounted(blank());
    let mut f = must(root.create(&mut sb, "f"));
    must(f.write_at(&mut sb, 0, &pattern(700), None));
    let mut g = must(root.create(&mut sb, "g"));
    must(g.write_at(&mut sb, 0, &pattern(396 * 512), None));
    assert_eq!(sb.free_clus_count, 1);
    let clus = f.first_clus;
    assert_eq!(f.write_at(&mut sb, 700, &pattern(1000), None), Err(VfsError::NoSpace));
    assert_eq!((f.first_clus, f.size()), (clus, 700));
    assert_eq!(contents(&mut sb, &f), pattern(700));
    assert_eq!(f.truncate(&mut sb, 5000, None), Err(VfsError::NoSpace));
    assert_eq!((f.first_clus, f.size()), (clus, 700));
    assert_eq!(contents(&mut sb, &f), pattern(700));
    assert_eq!(sb.free_clus_count, 0);
    assert_eq!(g.write_at(&mut sb, 396 * 512, b"x", None), Err(VfsError::NoSpace));
    assert_eq!(contents(&mut sb, &g), pattern(396 * 512));
    assert_eq!(root.mkdir(&mut sb, "d").err(), Some(VfsError::NoSpace));
    assert_eq!(listed(&mut sb, &mut root), vec!["f", "g"]);
    let mut n = 0;
    while root.create(&mut sb, &format!("FILE{}.TXT", n)).is_ok() {
        n += 1;
    }
    assert_eq!(listed(&mut sb, &mut root).len(), n + 2);
    assert_eq!(root.create(&mut sb, "LAST.TXT").err(), Some(VfsError::NoSpace));
    assert_eq!(root.rename(&mut sb, "f", "a rather long name.txt"), Err(VfsError::NoSpace));
    assert_eq!(listed(&mut sb, &mut root).len(), n + 2);
    assert_eq!(contents(&mut sb, &f), pattern(700));
}

#[test]
fn fat32_new_clusters_are_zero_around_the_data() {
    let mut d = blank();
    for b in d.data[40 * 512..].iter_mut().skip(512) {
        *b = 0xEE;
    }
    let (mut sb, mut root) = mounted(d);
    let mut f = must(root.create(&mut sb, "f"));
    must(f.write_at(&mut sb, 5, b"0123456789", None));
    let mut expected = vec![0u8; 5];
    expected.extend_from_slice(b"0123456789");
    assert_eq!(contents(&mut sb, &f), expected);
    must(f.write_at(&mut sb, 1500, &[7; 600], None));
    let all = contents(&mut sb, &f);
    assert!(all[15..1500].iter().all(|b| *b == 0));
    assert!(all[1500..2100].iter().all(|b| *b == 7));
    must(f.truncate(&mut sb, 2500, None));
    let all = contents(&mut sb, &f);
    assert!(all[2100..].iter().all(|b| *b == 0));
}

#[test]
fn fat32_reads_and_other_writes_leave_what_was_written() {
    let (mut sb, mut root) = mounted(blank());
    let mut a = must(root.create(&mut sb, "a"));
    let mut b = must(root.create(&mut sb, "b"));
    must(a.write_at(&mut sb, 0, &pattern(1000), None));
    let (free, next) = (sb.free_clus_count, sb.next_handle);
    must(b.write_at(&mut sb, 0, &pattern(3000), None));
    assert_eq!(sb.free_clus_count, free - 6);
    assert_eq!(sb.next_handle, next);
    let mut half = vec![0u8; 500];
    assert_eq!(a.read_at(&mut sb, 0, &mut half), Ok(500));
    assert_eq!(half, pattern(500));
    assert_eq!(contents(&mut sb, &b), pattern(3000));
    assert_eq!(a.read_at(&mut sb, 500, &mut half), Ok(500));
    assert_eq!(half, pattern(1000)[500..]);
    assert_eq!(b.truncate(&mut sb, 100, None), Ok(()));
    assert_eq!(sb.free_clus_count, free - 1);
    assert_eq!(contents(&mut sb, &a), pattern(1000));
    assert_eq!(root.unlink(&mut sb, "b"), Ok(()));
    assert_eq!(sb.free_clus_count, free - 1);
    b.close(&mut sb);
    assert_eq!(sb.free_clus_count, free);
}

#[test]
fn fat32_copies_of_the_table_are_written() {
    let (mut sb, mut root) = mounted(blank());
    let table = |t: usize, sb: &Fat32SuperBlock<Disk>| {
        let at = (RESERVED + t * FAT_SECTORS) * 512;
        sb.device.data[at + 8..at + FAT_SECTORS * 512].to_vec()
    };
    let before = table(0, &sb);
    let mut f = must(root.create(&mut sb, "f"));
    must(f.write_at(&mut sb, 0, &pattern(2000), None));
    assert_eq!(table(0, &sb), table(1, &sb));
    assert_ne!(table(0, &sb), before);
    f.close(&mut sb);
    assert_eq!(root.unlink(&mut sb, "f"), Ok(()));
    assert_eq!(table(0, &sb), before);
    assert_eq!(table(1, &sb), before);
}

#[test]
fn fat32_listings_are_remembered() {
    let (mut sb, mut root) = mounted(blank());
    must(root.create(&mut sb, "one")).close(&mut sb);
    let first = must(root.get_dir_slots(&mut sb));
    assert_eq!(first.len(), 1);
    sb.device.failing = true;
    let second = must(root.get_dir_slots(&mut sb));
    assert_eq!(second.len(), 1);
    assert_eq!(second[0].sfn_entry, first[0].sfn_entry);
    sb.device.failing = false;
    must(root.create(&mut sb, "two")).close(&mut sb);
    assert_eq!(must(root.get_dir_slots(&mut sb)).len(), 2);
}

#[test]
fn fat32_empty_file_grows() {
    let (mut sb, mut root) = mounted(blank());
    let mut f = must(root.create(&mut sb, "f"));
    assert_eq!(f.truncate(&mut sb, 1200, None), Ok(()));
    assert_eq!(contents(&mut sb, &f), vec![0; 1200]);
    assert_eq!(sb.free_clus_count, 396);
    must(f.write_at(&mut sb, 1199, b"x", None));
    assert_eq!(sb.free_clus_count, 396);
    assert_eq!(contents(&mut sb, &f)[1198..], [0, b'x']);
}

#[test]
fn fat32_length_within_the_last_cluster() {
    let (mut sb, mut root) = mounted(blank());
    let mut f = must(root.create(&mut sb, "f"));
    let mut g = must(root.create(&mut sb, "g"));
    must(g.write_at(&mut sb, 0, b"beside", None));
    must(f.write_at(&mut sb, 0, &pattern(700), None));
    assert_eq!(f.truncate(&mut sb, 600, None), Ok(()));
    assert_eq!(contents(&mut sb, &f), pattern(600));
    must(f.write_at(&mut sb, 600, b"end", None));
    assert_eq!(contents(&mut sb, &f)[..600], pattern(600)[..]);
    assert_eq!(contents(&mut sb, &f)[600..], b"end"[..]);
    assert_eq!(listed(&mut sb, &mut root), vec!["f", "g"]);
    let again = must(root.lookup(&mut sb, "f"));
    assert_eq!(again.size(), 603);
    let beside = must(root.lookup(&mut sb, "g"));
    assert_eq!(contents(&mut sb, &beside), b"beside");
}

#[test]
fn fat32_growth_without_room_is_refused() {
    let (mut sb, mut root) = mounted(blank());
    let mut f = must(root.create(&mut sb, "f"));
    must(f.write_at(&mut sb, 0, &pattern(700), None));
    assert_eq!(f.truncate(&mut sb, 512 * 500, None), Err(VfsError::NoSpace));
    assert_eq!(f.size(), 700);
    assert_eq!(contents(&mut sb, &f), pattern(700));
    assert_eq!(f.truncate(&mut sb, 100, None), Ok(()));
    assert_eq!(sb.free_clus_count, 398);
    assert_eq!(contents(&mut sb, &f), pattern(100));
}

#[test]
fn fat32_files_are_written_in_turn() {
    let (mut sb, mut root) = mounted(blank());
    let mut a = must(root.create(&mut sb, "a"));
    let mut b = must(root.create(&mut sb, "b"));
    for i in 0..6 {
        must(a.write_at(&mut sb, i * 300, &pattern(1800)[i as usize * 300..][..300], None));
        must(b.write_at(&mut sb, i * 200, &[i as u8; 200], None));
    }
    assert_eq!(contents(&mut sb, &a), pattern(1800));
    let all = contents(&mut sb, &b);
    assert!((0..1200).all(|k| all[k] == (k / 200) as u8));
    let (a, b) = (must(root.lookup(&mut sb, "a")), must(root.lookup(&mut sb, "b")));
    assert_eq!((a.size(), b.size()), (1800, 1200));
    assert_eq!(sb.free_clus_count, 399 - 4 - 3);
}
