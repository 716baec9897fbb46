//! Mounting.

use crate::blockdriver::traits;
use crate::blockdriver::traits::BlockDevice;
use crate::bytes::read_le_u32;
use crate::ntfs::attr::{iter_attrs, Attr, AttrView};
use crate::ntfs::boot::BootSector;
use crate::ntfs::detail;
use crate::ntfs::detail::LastError;
use crate::ntfs::inode::NtfsInode;
use crate::ntfs::io::read_sectors;
use crate::ntfs::record::{usa_fixup, RECORD_MAGIC};
use crate::ntfs::runs::{Run, RunList};
use crate::ntfs::volume::{read_runs, Failure, NtfsSuperBlock};
use crate::vfs::{FileType, VfsError};
use vstd::prelude::*;

verus! {

/// The record number of the root directory.
pub const ROOT_RECORD: u64 = 5;

/// The bytes of the first record of the MFT, as they stand on the volume.
pub open spec fn first_record(disk: spec_fn(int) -> u8, boot: BootSector) -> Seq<u8> {
    crate::fat32::io::disk_range(
        disk,
        boot.mft_lcn * boot.sectors_per_cluster * 512,
        boot.record_size as int,
    )
}

/// The attribute that holds the runs of the MFT: unnamed data that is not resident.
pub open spec fn is_mft_data(a: AttrView) -> bool {
    crate::ntfs::inode::is_data(a) && !a.resident
}

/// The first such attribute, from number `i` on.
pub open spec fn mft_data(attrs: Seq<AttrView>, i: int) -> Option<AttrView>
    decreases attrs.len() - i,
{
    if i >= attrs.len() {
        None
    } else if is_mft_data(attrs[i]) {
        Some(attrs[i])
    } else {
        mft_data(attrs, i + 1)
    }
}

/// The runs of the MFT, as its own first record gives them.
pub open spec fn mft_runs_of(disk: spec_fn(int) -> u8, boot: BootSector) -> Option<Seq<Run>> {
    let raw = first_record(disk, boot);
    let rec = crate::ntfs::record::fixed(raw, 512);
    if !crate::ntfs::record::is_whole(raw, 512) || crate::bytes::le32(rec, 0) != RECORD_MAGIC {
        None
    } else {
        match crate::ntfs::attr::attrs_of(rec) {
            None => None,
            Some(attrs) => match mft_data(attrs, 0) {
                None => None,
                Some(a) => crate::ntfs::volume::attr_runs(rec, a),
            },
        }
    }
}

/// Why the first record does not give the runs of the MFT; nothing where it does.
pub open spec fn mft_text(disk: spec_fn(int) -> u8, boot: BootSector) -> Option<Seq<char>> {
    let raw = first_record(disk, boot);
    let rec = crate::ntfs::record::fixed(raw, 512);
    if crate::ntfs::record::torn_text(raw, 512) is Some {
        crate::ntfs::record::torn_text(raw, 512)
    } else if crate::bytes::le32(rec, 0) != RECORD_MAGIC {
        Some("ntfs: MFT FILE magic miss (not 0x454C4946)"@)
    } else {
        match crate::ntfs::attr::attrs_of(rec) {
            None => Some("ntfs: MFT attr parse failed"@),
            Some(attrs) => match mft_data(attrs, 0) {
                None => Some("ntfs: MFT DATA run not found (no non-resident $DATA)"@),
                Some(a) => if crate::ntfs::volume::pairs_of(rec, a) is None {
                    Some("ntfs: MFT DATA mapping pairs OOB"@)
                } else if crate::ntfs::volume::attr_runs(rec, a) is None {
                    Some("ntfs: MFT DATA run decode failed"@)
                } else {
                    None
                },
            },
        }
    }
}

fn find_mft_data(attrs: &Vec<Attr>) -> (r: Option<usize>)
    ensures
        match mft_data(crate::ntfs::attr::attr_views(attrs@), 0) {
            Some(a) => r is Some && r->0 < attrs@.len() && attrs@[r->0 as int]@ == a,
            None => r is None,
        },
{
    let ghost views = crate::ntfs::attr::attr_views(attrs@);
    let mut i: usize = 0;
    while i < attrs.len()
        invariant
            i <= attrs@.len(),
            views == crate::ntfs::attr::attr_views(attrs@),
            mft_data(views, 0) == mft_data(views, i as int),
        decreases attrs@.len() - i,
    {
        assert(views[i as int] == attrs@[i as int]@);
        if attrs[i].attr_type == crate::ntfs::attr::ATTR_DATA && attrs[i].name.is_none()
            && !attrs[i].resident {
            return Some(i);
        }
        i = i + 1;
    }
    None
}

/// Reads the runs of the MFT from its first record. Why it does not give them, or how the
/// device failed, is noted.
pub fn boot_mft_runs<D: BlockDevice>(device: &mut D, boot: &BootSector, why: &mut LastError) -> (r:
    Result<RunList, VfsError>)
    requires
        old(device).sector_len() == 512,
        boot.inv(),
    ensures
        crate::fat32::io::same_device(*final(device), *old(device)),
        final(device).disk() == old(device).disk(),
        match r {
            Ok(l) => {
                &&& l.inv()
                &&& mft_runs_of(old(device).disk(), *boot) == Some(l.runs@)
                &&& traits::faults(*final(device)) == traits::faults(*old(device))
                &&& *final(why) == *old(why)
            },
            Err(e) => {
                let text = mft_text(old(device).disk(), *boot);
                &&& e == VfsError::IOError
                &&& if traits::faults(*final(device)) > traits::faults(*old(device)) {
                    final(why).noted(*old(why), detail::fault_text(*old(device), *final(device)))
                } else {
                    text is Some && final(why).noted(*old(why), text)
                }
            },
        },
{
    let lba: u64 = boot.cluster_to_lba(boot.mft_lcn);
    let secs: u64 = boot.record_size / 512;
    proof {
        lemma_unit_sectors(boot.record_size as int);
        crate::ntfs::record::lemma_torn_text(first_record(device.disk(), *boot), 512);
    }
    let mut buf: Vec<u8> = match read_sectors(device, lba, secs as u32, why) {
        Ok(v) => v,
        Err(_) => {
            why.set_last_error_if_none("ntfs: boot_mft read_sectors failed");
            return Err(VfsError::IOError);
        },
    };
    assert(buf@ =~= first_record(old(device).disk(), *boot));
    if usa_fixup(&mut buf, 512, why).is_err() {
        why.set_last_error_if_none("ntfs: usa_fixup failed (torn write/USN mismatch)");
        return Err(VfsError::IOError);
    }
    if read_le_u32(&buf, 0) != RECORD_MAGIC {
        why.set_last_error_if_none("ntfs: MFT FILE magic miss (not 0x454C4946)");
        return Err(VfsError::IOError);
    }
    let attrs: Vec<Attr> = match iter_attrs(&buf) {
        Ok(a) => a,
        Err(_) => {
            why.set_last_error_if_none("ntfs: MFT attr parse failed");
            return Err(VfsError::IOError);
        },
    };
    let i: usize = match find_mft_data(&attrs) {
        Some(i) => i,
        None => {
            why.set_last_error_if_none(
                "ntfs: MFT DATA run not found (no non-resident $DATA)",
            );
            return Err(VfsError::IOError);
        },
    };
    if attrs[i].map_off > attrs[i].map_end || attrs[i].map_end > buf.len() {
        why.set_last_error_if_none("ntfs: MFT DATA mapping pairs OOB");
        return Err(VfsError::IOError);
    }
    match read_runs(&buf, &attrs[i]) {
        Ok(l) => Ok(l),
        Err(_) => {
            why.set_last_error_if_none("ntfs: MFT DATA run decode failed");
            Err(VfsError::IOError)
        },
    }
}

/// There is a text where the first record does not give the runs of the MFT, and nowhere
/// else.
pub proof fn lemma_mft_text(disk: spec_fn(int) -> u8, boot: BootSector)
    ensures
        mft_text(disk, boot) is None <==> mft_runs_of(disk, boot) is Some,
{
    crate::ntfs::record::lemma_torn_text(first_record(disk, boot), 512);
}

/// A record is a whole number of sectors.
proof fn lemma_unit_sectors(n: int)
    requires
        crate::ntfs::boot::is_unit(n),
    ensures
        n / 512 * 512 == n,
{
    lemma_pow2_divides(n);
}

/// A power of two from 512 on is a multiple of 512.
proof fn lemma_pow2_divides(n: int)
    requires
        512 <= n <= 65536,
        crate::ntfs::boot::is_pow2(n),
    ensures
        n % 512 == 0,
    decreases n,
{
    if n > 1023 {
        lemma_pow2_divides(n / 2);
    } else {
        reveal_with_fuel(crate::ntfs::boot::is_pow2, 11);
    }
}

/// What a mount fails with, and what is noted of it, on a volume with this boot sector;
/// nothing where it has an MFT, and a root directory in it.
pub open spec fn mount_failure(disk: spec_fn(int) -> u8, boot: BootSector) -> Option<Failure> {
    match mft_runs_of(disk, boot) {
        None => Some((VfsError::IOError, mft_text(disk, boot))),
        Some(mft) => match crate::ntfs::inode::load_failure(disk, boot, mft, ROOT_RECORD) {
            Some((e, text)) => Some(
                (
                    e,
                    if text is Some {
                        text
                    } else {
                        Some("ntfs: load root MFT 5 failed"@)
                    },
                ),
            ),
            None => if root_type(disk, boot, mft) != FileType::Directory {
                Some((VfsError::IOError, Some("ntfs: root MFT 5 not a directory"@)))
            } else {
                None
            },
        },
    }
}

/// The type of what the record of the root describes.
pub open spec fn root_type(disk: spec_fn(int) -> u8, boot: BootSector, mft: Seq<Run>) -> FileType {
    crate::ntfs::inode::type_and_time(
        crate::ntfs::attr::attrs_of(
            crate::ntfs::volume::record_of(disk, boot, mft, ROOT_RECORD as int)->0,
        )->0,
    ).0
}

/// A mount of the volume behind the boot sector `s` failed with `e` and the detail `text`,
/// and no fault of the device had to do with it.
#[verifier::opaque]
pub open spec fn is_refused(
    disk: spec_fn(int) -> u8,
    s: Seq<u8>,
    e: VfsError,
    text: Option<Seq<char>>,
) -> bool {
    exists|boot: BootSector| #[trigger]
        boot.describes(s) && boot.inv() && mount_failure(disk, boot) == Some((e, text))
}

/// The device failed to carry out a read after `d`, and the detail `text` says how.
#[verifier::opaque]
pub open spec fn is_cut_short<D: BlockDevice>(d: D, text: Option<Seq<char>>) -> bool {
    exists|later: D| #[trigger]
        crate::fat32::io::same_device(later, d) && traits::faults(later) > traits::faults(d)
            && text == detail::fault_text(d, later)
}

proof fn lemma_refused(
    disk: spec_fn(int) -> u8,
    s: Seq<u8>,
    boot: BootSector,
    e: VfsError,
    text: Option<Seq<char>>,
)
    requires
        boot.describes(s),
        boot.inv(),
        mount_failure(disk, boot) == Some((e, text)),
    ensures
        is_refused(disk, s, e, text),
{
    reveal(is_refused);
}

proof fn lemma_fails_later<D: BlockDevice>(later: D, d: D)
    requires
        crate::fat32::io::same_device(later, d),
        traits::faults(later) > traits::faults(d),
    ensures
        is_cut_short(d, detail::fault_text(d, later)),
{
    reveal(is_cut_short);
}

/// A device that fails after one that came from `d` fails after `d`.
proof fn lemma_cut_short<D: BlockDevice>(mid: D, d: D, text: Option<Seq<char>>)
    requires
        is_cut_short(mid, text),
        crate::fat32::io::same_device(mid, d),
    ensures
        is_cut_short(d, text),
{
    reveal(is_cut_short);
    let later = choose|later: D| #[trigger]
        crate::fat32::io::same_device(later, mid) && traits::faults(later) > traits::faults(mid)
            && text == detail::fault_text(mid, later);
    assert(crate::fat32::io::same_device(later, d));
}

/// Mounts the volume behind a boot sector.
fn mount_behind<D: BlockDevice>(device: D, boot: BootSector, why: &mut LastError) -> (r: Result<
    (NtfsSuperBlock<D>, NtfsInode),
    VfsError,
>)
    requires
        device.sector_len() == 512,
        boot.inv(),
        old(why).detail is None,
    ensures
        match r {
            Ok((sb, root)) => {
                &&& final(why).detail is None
                &&& sb.inv()
                &&& sb.boot == boot
                &&& sb.why.detail is None
                &&& crate::fat32::io::same_device(sb.device, device)
                &&& sb.device.disk() == device.disk()
                &&& mft_runs_of(device.disk(), boot) == Some(sb.mft_runs.runs@)
                &&& root.inv()
                &&& root.describes(device.disk(), boot, sb.mft_runs.runs@, ROOT_RECORD)
                &&& root.file_type == FileType::Directory
            },
            Err(e) => (e == VfsError::IOError && is_cut_short(device, final(why).text())) || ((e
                == VfsError::IOError || e == VfsError::NotFound) && mount_failure(
                device.disk(),
                boot,
            ) == Some((e, final(why).text()))),
        },
{
    let ghost d0 = device;
    let mut dev: D = device;
    proof {
        lemma_mft_text(d0.disk(), boot);
    }
    let mft_runs: RunList = match boot_mft_runs(&mut dev, &boot, why) {
        Ok(l) => l,
        Err(e) => {
            proof {
                if traits::faults(dev) > traits::faults(d0) {
                    lemma_fails_later(dev, d0);
                }
            }
            return Err(e);
        },
    };
    proof {
        crate::ntfs::inode::lemma_load_failure(d0.disk(), boot, mft_runs.runs@, ROOT_RECORD);
    }
    let mut sb = NtfsSuperBlock { device: dev, boot, mft_runs, why: LastError::new() };
    let root: NtfsInode = match NtfsInode::load(&mut sb, ROOT_RECORD) {
        Ok(n) => n,
        Err(e) => {
            why.set_last_error(sb.why.last_error());
            why.set_last_error_if_none("ntfs: load root MFT 5 failed");
            proof {
                if traits::faults(sb.device) > traits::faults(d0) {
                    lemma_fails_later(sb.device, d0);
                }
            }
            return Err(e);
        },
    };
    if root.file_type != FileType::Directory {
        why.set_last_error_if_none("ntfs: root MFT 5 not a directory");
        return Err(VfsError::IOError);
    }
    why.set_last_error(None);
    Ok((sb, root))
}

/// What a mount of the device gives, and the detail that is noted with it.
pub open spec fn mount_gives<D: BlockDevice>(
    device: Option<D>,
    r: Result<(NtfsSuperBlock<D>, NtfsInode), VfsError>,
    text: Option<Seq<char>>,
) -> bool {
    match device {
        None => r == Err::<(NtfsSuperBlock<D>, NtfsInode), VfsError>(VfsError::InvalidDevice)
            && text == Some("ntfs: no device"@),
        Some(d) => {
            let s = crate::fat32::io::disk_range(d.disk(), 0, 512);
            match r {
                Ok((sb, root)) => {
                    &&& text is None
                    &&& crate::ntfs::boot::is_ntfs(s)
                    &&& crate::ntfs::boot::is_sound(s, d.sectors() as int)
                    &&& sb.inv()
                    &&& sb.why.detail is None
                    &&& sb.boot.describes(s)
                    &&& crate::fat32::io::same_device(sb.device, d)
                    &&& sb.device.disk() == d.disk()
                    &&& mft_runs_of(d.disk(), sb.boot) == Some(sb.mft_runs.runs@)
                    &&& root.inv()
                    &&& root.describes(d.disk(), sb.boot, sb.mft_runs.runs@, ROOT_RECORD)
                    &&& root.file_type == FileType::Directory
                },
                Err(VfsError::InvalidDevice) => !crate::ntfs::boot::is_ntfs(s) && text is None,
                Err(VfsError::InvalidInput) => crate::ntfs::boot::is_ntfs(s)
                    && !crate::ntfs::boot::is_sound(s, d.sectors() as int) && text is None,
                Err(e) => (e == VfsError::IOError && is_cut_short(d, text)) || (
                crate::ntfs::boot::is_ntfs(s) && crate::ntfs::boot::is_sound(
                    s,
                    d.sectors() as int,
                ) && is_refused(d.disk(), s, e, text)),
            }
        },
    }
}

pub struct NtfsFileSystem;

impl NtfsFileSystem {
    pub fn name(&self) -> (r: &str)
        ensures
            r@ == "ntfs"@,
    {
        "ntfs"
    }

    /// Mounts the volume on a device: the volume, and its root directory. `why`
    /// tells afterwards what went wrong, where the error alone does not.
    pub fn mount<D: BlockDevice>(&self, device: Option<D>, why: &mut LastError) -> (r: Result<
        (NtfsSuperBlock<D>, NtfsInode),
        VfsError,
    >)
        requires
            device matches Some(d) ==> d.sector_len() == 512,
        ensures
            mount_gives(device, r, final(why).text()),
    {
        why.set_last_error(None);
        let ghost d0 = device->0;
        let mut dev: D = match device {
            Some(d) => d,
            None => {
                why.set_last_error_if_none("ntfs: no device");
                return Err(VfsError::InvalidDevice);
            },
        };
        let boot: BootSector = match BootSector::parse(&mut dev, why) {
            Ok(b) => b,
            Err(e) => {
                if e == VfsError::IOError {
                    why.set_last_error_if_none("ntfs: boot sector read/parse IOError");
                    proof {
                        lemma_fails_later(dev, d0);
                    }
                }
                return Err(e);
            },
        };
        assert(crate::fat32::io::same_device(dev, d0));
        let ghost mid = dev;
        let ghost s = crate::fat32::io::disk_range(d0.disk(), 0, 512);
        match mount_behind(dev, boot, why) {
            Ok(mounted) => Ok(mounted),
            Err(e) => {
                proof {
                    if is_cut_short(mid, why.text()) {
                        lemma_cut_short(mid, d0, why.text());
                    }
                    if mount_failure(d0.disk(), boot) == Some((e, why.text())) {
                        lemma_refused(d0.disk(), s, boot, e, why.text());
                    }
                }
                Err(e)
            },
        }
    }
}

} // verus!
