use kstorage::tmpfs::inode::Tmpfs;
use kstorage::tmpfs::volume::{InoCounter, TmpfsVolume, ROOT_INO, TMPFS_BUDGET};
use kstorage::vfs::{FileType, VfsError};

fn fresh() -> (TmpfsVolume, u64, InoCounter) {
    let (vol, root) = Tmpfs.mount();
    (vol, root, InoCounter::new())
}

fn names(vol: &TmpfsVolume, dir: u64) -> Vec<String> {
    let mut v: Vec<String> = vol.readdir(dir).unwrap().into_iter().map(|e| e.name).collect();
    v.sort();
    v
}

#[test]
fn tmpfs_mount_gives_an_empty_root() {
    let (vol, root, _) = fresh();
    assert_eq!(Tmpfs.name(), "tmpfs");
    assert_eq!(vol.ino(root), ROOT_INO);
    assert_eq!(vol.file_type(root), FileType::Directory);
    assert_eq!(vol.readdir(root).unwrap().len(), 0);
    let st = vol.getattr(root).unwrap();
    assert_eq!((st.ino, st.size, st.mtime, st.mode), (1, 0, 0, 0o755));
    let fs = vol.statfs().unwrap();
    assert_eq!((fs.block_size, fs.total_blocks, fs.free_blocks), (4096, 16384, 16384));
    assert!(vol.sync_fs().is_ok());
}

#[test]
fn tmpfs_reads_what_was_written() {
    let (mut vol, root, mut ids) = fresh();
    let f = vol.create(root, "a", &mut ids, 7).unwrap();
    assert_eq!(vol.write_at(f, 3, b"hello", 9), Ok(5));
    assert_eq!(vol.read_at(f, 3, 5).unwrap(), b"hello");
    assert_eq!(vol.read_at(f, 0, 100).unwrap(), b"\0\0\0hello");
    assert_eq!(vol.read_at(f, 8, 1).unwrap(), b"");
    assert_eq!(vol.write_at(f, 4, b"E", 10), Ok(1));
    assert_eq!(vol.read_at(f, 0, 100).unwrap(), b"\0\0\0hEllo");
    assert_eq!(vol.size(f), 8);
    assert_eq!(vol.used, 8);
    let st = vol.getattr(f).unwrap();
    assert_eq!((st.ino, st.size, st.mtime, st.mode), (2, 8, 10, 0o644));
}

#[test]
fn tmpfs_a_directory_has_no_bytes() {
    let (mut vol, root, mut ids) = fresh();
    let f = vol.create(root, "a", &mut ids, 0).unwrap();
    assert_eq!(vol.read_at(root, 0, 1).err(), Some(VfsError::IsADirectory));
    assert_eq!(vol.write_at(root, 0, b"x", 0), Err(VfsError::IsADirectory));
    assert_eq!(vol.truncate(root, 0, 0), Err(VfsError::IsADirectory));
    assert_eq!(vol.readdir(f).err(), Some(VfsError::NotADirectory));
    assert_eq!(vol.create(f, "b", &mut ids, 0), Err(VfsError::NotADirectory));
    assert_eq!(vol.lookup(f, "b"), Err(VfsError::NotADirectory));
    assert_eq!(vol.unlink(f, "b"), Err(VfsError::NotADirectory));
    assert_eq!(vol.rmdir(f, "b"), Err(VfsError::NotADirectory));
    assert_eq!(vol.rename(f, "b", "c"), Err(VfsError::NotADirectory));
    assert_eq!(vol.link(f, "b", "c"), Err(VfsError::NotADirectory));
}

#[test]
fn tmpfs_truncate_cuts_and_fills() {
    let (mut vol, root, mut ids) = fresh();
    let f = vol.create(root, "a", &mut ids, 0).unwrap();
    vol.write_at(f, 0, b"abcdef", 0).unwrap();
    assert_eq!(vol.truncate(f, 2, 5), Ok(()));
    assert_eq!(vol.used, 2);
    assert_eq!(vol.truncate(f, 4, 6), Ok(()));
    assert_eq!(vol.read_at(f, 0, 9).unwrap(), b"ab\0\0");
    assert_eq!(vol.used, 4);
    assert_eq!(vol.getattr(f).unwrap().mtime, 6);
}

#[test]
fn tmpfs_keeps_to_its_budget() {
    let (mut vol, root, mut ids) = fresh();
    let f = vol.create(root, "a", &mut ids, 0).unwrap();
    let g = vol.create(root, "b", &mut ids, 0).unwrap();
    assert_eq!(vol.truncate(f, TMPFS_BUDGET - 3, 0), Ok(()));
    assert_eq!(vol.write_at(g, 0, b"abcd", 0), Err(VfsError::NoSpace));
    assert_eq!(vol.size(g), 0);
    assert_eq!(vol.truncate(g, 4, 0), Err(VfsError::NoSpace));
    assert_eq!(vol.symlink(root, "l", "abcd", &mut ids, 0), Err(VfsError::NoSpace));
    assert_eq!(vol.write_at(g, 0, b"abc", 0), Ok(3));
    assert_eq!(vol.used, TMPFS_BUDGET);
    assert_eq!(vol.statfs().unwrap().free_blocks, 0);
    assert_eq!(vol.write_at(g, u64::MAX, b"ab", 0), Err(VfsError::NoSpace));
    vol.close(f);
    assert_eq!(vol.unlink(root, "a"), Ok(()));
    assert_eq!(vol.used, 3);
}

#[test]
fn tmpfs_open_file_outlives_its_name() {
    let (mut vol, root, mut ids) = fresh();
    let f = vol.create(root, "a", &mut ids, 0).unwrap();
    vol.write_at(f, 0, b"data", 0).unwrap();
    assert_eq!(vol.unlink(root, "a"), Ok(()));
    assert_eq!(vol.lookup(root, "a"), Err(VfsError::NotFound));
    assert_eq!(vol.read_at(f, 0, 4).unwrap(), b"data");
    assert_eq!(vol.used, 4);
    vol.close(f);
    assert_eq!(vol.used, 0);
    assert!(!vol.is_live(f));
    assert_eq!(vol.unlink(root, "a"), Err(VfsError::NotFound));
}

#[test]
fn tmpfs_names_are_made_once() {
    let (mut vol, root, mut ids) = fresh();
    let f = vol.create(root, "a", &mut ids, 0).unwrap();
    assert_eq!(vol.create(root, "a", &mut ids, 0), Err(VfsError::AlreadyExists));
    assert_eq!(vol.mkdir(root, "a", &mut ids, 0), Err(VfsError::AlreadyExists));
    assert_eq!(vol.symlink(root, "a", "t", &mut ids, 0), Err(VfsError::AlreadyExists));
    assert_eq!(vol.mknod(root, "a", 0, &mut ids, 0), Err(VfsError::AlreadyExists));
    assert_eq!(vol.mkfifo(root, "a", 0, &mut ids, 0), Err(VfsError::AlreadyExists));
    assert_eq!(vol.lookup(root, "a"), Ok(f));
    assert_eq!(ids.next, 3);
}

#[test]
fn tmpfs_directories_nest() {
    let (mut vol, root, mut ids) = fresh();
    let d = vol.mkdir(root, "d", &mut ids, 0).unwrap();
    vol.create(d, "x", &mut ids, 0).unwrap();
    assert_eq!(vol.getattr(d).unwrap().mode, 0o755);
    assert_eq!(vol.rmdir(root, "d"), Err(VfsError::NotEmpty));
    assert_eq!(vol.rmdir(root, "e"), Err(VfsError::NotFound));
    assert_eq!(vol.unlink(d, "x"), Ok(()));
    assert_eq!(vol.rmdir(root, "d"), Ok(()));
    assert!(names(&vol, root).is_empty());
}

#[test]
fn tmpfs_dropping_a_directory_drops_what_it_names() {
    let (mut vol, root, mut ids) = fresh();
    let d = vol.mkdir(root, "d", &mut ids, 0).unwrap();
    let x = vol.create(d, "x", &mut ids, 0).unwrap();
    let y = vol.create(d, "y", &mut ids, 0).unwrap();
    vol.write_at(x, 0, b"12345", 0).unwrap();
    vol.write_at(y, 0, b"1", 0).unwrap();
    vol.close(x);
    vol.close(d);
    assert_eq!(vol.unlink(root, "d"), Ok(()));
    assert!(!vol.is_live(d));
    assert!(!vol.is_live(x));
    assert!(vol.is_live(y));
    assert_eq!(vol.used, 1);
}

#[test]
fn tmpfs_rename_replaces() {
    let (mut vol, root, mut ids) = fresh();
    let a = vol.create(root, "a", &mut ids, 0).unwrap();
    let b = vol.create(root, "b", &mut ids, 0).unwrap();
    vol.write_at(b, 0, b"bb", 0).unwrap();
    vol.close(b);
    assert_eq!(vol.rename(root, "a", "b"), Ok(()));
    assert_eq!(names(&vol, root), vec!["b".to_string()]);
    assert_eq!(vol.lookup(root, "b"), Ok(a));
    assert!(!vol.is_live(b));
    assert_eq!(vol.used, 0);
    assert_eq!(vol.rename(root, "a", "c"), Err(VfsError::NotFound));
    assert_eq!(vol.rename(root, "b", "b"), Ok(()));
    assert_eq!(names(&vol, root), vec!["b".to_string()]);
}

#[test]
fn tmpfs_rename_across_directories() {
    let (mut vol, root, mut ids) = fresh();
    let d = vol.mkdir(root, "d", &mut ids, 0).unwrap();
    let a = vol.create(root, "a", &mut ids, 0).unwrap();
    assert_eq!(
        vol.rename_across_dirs(root, d, false, "a", "b"),
        Err(VfsError::CrossDeviceLink)
    );
    assert_eq!(vol.rename_across_dirs(root, a, true, "a", "b"), Err(VfsError::NotADirectory));
    assert_eq!(vol.rename_across_dirs(root, d, true, ".", "b"), Err(VfsError::InvalidInput));
    assert_eq!(vol.rename_across_dirs(root, d, true, "a", ".."), Err(VfsError::InvalidInput));
    assert_eq!(vol.rename_across_dirs(root, d, true, "z", "b"), Err(VfsError::NotFound));
    assert_eq!(vol.rename_across_dirs(root, d, true, "a", "b"), Ok(()));
    assert_eq!(names(&vol, root), vec!["d".to_string()]);
    assert_eq!(vol.lookup(d, "b"), Ok(a));
}

#[test]
fn tmpfs_links_share_a_file() {
    let (mut vol, root, mut ids) = fresh();
    let a = vol.create(root, "a", &mut ids, 0).unwrap();
    assert_eq!(vol.link(root, "a", "b"), Ok(()));
    assert_eq!(vol.link(root, "a", "b"), Err(VfsError::AlreadyExists));
    assert_eq!(vol.link(root, "z", "c"), Err(VfsError::NotFound));
    assert_eq!(vol.lookup(root, "b"), Ok(a));
    vol.write_at(a, 0, b"q", 0).unwrap();
    assert_eq!(vol.unlink(root, "a"), Ok(()));
    let b = vol.lookup(root, "b").unwrap();
    assert_eq!(vol.read_at(b, 0, 5).unwrap(), b"q");
}

#[test]
fn tmpfs_symlinks() {
    let (mut vol, root, mut ids) = fresh();
    let l = vol.symlink(root, "l", "/tmp/\u{e9}", &mut ids, 3).unwrap();
    assert_eq!(vol.readlink(l).unwrap(), "/tmp/\u{e9}");
    assert_eq!(vol.size(l), 7);
    assert_eq!(vol.getattr(l).unwrap().mode, 0o777);
    assert_eq!(vol.readlink(root).err(), Some(VfsError::InvalidInput));
    assert_eq!(vol.write_at(l, 0, b"x", 0), Ok(1));
    assert_eq!(vol.readlink(l).unwrap(), "x");
    assert_eq!(vol.write_at(l, 1, &[0xFF], 0), Ok(1));
    assert_eq!(vol.readlink(l).unwrap(), "x\u{fffd}");
    assert_eq!(vol.read_at(l, 0, 9).unwrap(), vec![b'x', 0xFF]);
    assert_eq!(vol.truncate(l, 1, 0), Ok(()));
    assert_eq!(vol.readlink(l).unwrap(), "x");
}

#[test]
fn tmpfs_special_nodes() {
    let (mut vol, root, mut ids) = fresh();
    let b = vol.mknod(root, "b", 0o60600, &mut ids, 0).unwrap();
    let c = vol.mknod(root, "c", 0o20640, &mut ids, 0).unwrap();
    let s = vol.mknod(root, "s", 0o140777, &mut ids, 0).unwrap();
    let r = vol.mknod(root, "r", 0o100644, &mut ids, 0).unwrap();
    let f = vol.mkfifo(root, "f", 0o7644, &mut ids, 0).unwrap();
    assert_eq!(vol.file_type(b), FileType::BlockDevice);
    assert_eq!(vol.file_type(c), FileType::CharDevice);
    assert_eq!(vol.file_type(s), FileType::Socket);
    assert_eq!(vol.file_type(r), FileType::Regular);
    assert_eq!(vol.file_type(f), FileType::Fifo);
    assert_eq!(vol.getattr(c).unwrap().mode, 0o640);
    assert_eq!(vol.getattr(f).unwrap().mode, 0o644);
    assert_eq!(vol.read_at(f, 0, 1).err(), Some(VfsError::IsADirectory));
    assert_eq!(names(&vol, root).len(), 5);
}

#[test]
fn tmpfs_attributes_change() {
    let (mut vol, root, mut ids) = fresh();
    let f = vol.create(root, "a", &mut ids, 1).unwrap();
    assert_eq!(vol.chmod(f, 0o170755, 4), Ok(()));
    assert_eq!(vol.getattr(f).unwrap().mode, 0o755);
    assert_eq!(vol.getattr(f).unwrap().mtime, 4);
    assert_eq!(vol.chown(f, 1, 2, 5), Ok(()));
    assert_eq!(vol.getattr(f).unwrap().mtime, 5);
    assert_eq!(vol.utimens(f, 99), Ok(()));
    assert_eq!(vol.getattr(f).unwrap().mtime, 99);
}

#[test]
fn tmpfs_listing_shows_numbers_and_types() {
    let (mut vol, root, mut ids) = fresh();
    vol.create(root, "a", &mut ids, 0).unwrap();
    vol.mkdir(root, "d", &mut ids, 0).unwrap();
    let mut l: Vec<(String, u64, FileType)> =
        vol.readdir(root).unwrap().into_iter().map(|e| (e.name, e.ino, e.file_type)).collect();
    l.sort_by_key(|e| e.1);
    assert_eq!(
        l,
        vec![
            ("a".to_string(), 2, FileType::Regular),
            ("d".to_string(), 3, FileType::Directory)
        ]
    );
}
