//! A mounted volume: its records, and the values of their attributes.

use crate::blockdriver::traits;
use crate::blockdriver::traits::BlockDevice;
use crate::bytes::sub_vec;
use crate::ntfs::attr::{Attr, AttrView};
use crate::ntfs::boot::BootSector;
use crate::ntfs::detail;
use crate::ntfs::detail::LastError;
use crate::ntfs::record::read_record_at;
use crate::ntfs::runs::{decode_mapping_pairs, read_file_at, Run, RunList};
use crate::vfs::{StatFs, VfsError};
use vstd::prelude::*;

verus! {

/// A volume that is mounted for reading. `mft_runs` are the runs of the MFT, which
/// locate every record.
pub struct NtfsSuperBlock<D: BlockDevice> {
    pub device: D,
    pub boot: BootSector,
    pub mft_runs: RunList,
    /// Why a read of the volume failed.
    pub why: LastError,
}

/// The record with number `no`, on a volume whose MFT has the runs `mft`.
pub open spec fn record_of(
    disk: spec_fn(int) -> u8,
    boot: BootSector,
    mft: Seq<Run>,
    no: int,
) -> Option<Seq<u8>> {
    if no >= boot.max_records || no * boot.record_size > u64::MAX {
        None
    } else {
        crate::ntfs::record::record_in(
            disk,
            boot,
            mft,
            no * boot.record_size,
            boot.record_size as int,
        )
    }
}

/// An error, and what is noted of it, if anything.
pub type Failure = (VfsError, Option<Seq<char>>);

/// What a read of the record with number `no` fails with; nothing where the volume holds it.
#[verifier::opaque]
pub open spec fn record_failure(
    disk: spec_fn(int) -> u8,
    boot: BootSector,
    mft: Seq<Run>,
    no: int,
) -> Option<Failure> {
    if no >= boot.max_records {
        Some((VfsError::NotFound, None))
    } else if no * boot.record_size > u64::MAX {
        Some((VfsError::IOError, None))
    } else {
        match crate::ntfs::record::record_text(
            disk,
            boot,
            mft,
            no * boot.record_size,
            boot.record_size as int,
        ) {
            Some(text) => Some((VfsError::IOError, Some(text))),
            None => None,
        }
    }
}

/// A read of a record fails, with the device at work, where the volume does not hold it.
pub proof fn lemma_record_failure(
    disk: spec_fn(int) -> u8,
    boot: BootSector,
    mft: Seq<Run>,
    no: int,
)
    requires
        boot.inv(),
    ensures
        record_failure(disk, boot, mft, no) is None <==> record_of(disk, boot, mft, no) is Some,
        record_failure(disk, boot, mft, no) matches Some((e, _)) ==> e == (if no
            >= boot.max_records {
            VfsError::NotFound
        } else {
            VfsError::IOError
        }),
{
    reveal(record_failure);
    crate::ntfs::record::lemma_record_text(
        disk,
        boot,
        mft,
        no * boot.record_size,
        boot.record_size as int,
    );
}

/// The mapping pairs of an attribute, where the record holds them.
pub open spec fn pairs_of(rec: Seq<u8>, a: AttrView) -> Option<Seq<u8>> {
    if a.map_off <= a.map_end <= rec.len() {
        Some(rec.subrange(a.map_off as int, a.map_end as int))
    } else {
        None
    }
}

/// The runs of an attribute that is not resident.
pub open spec fn attr_runs(rec: Seq<u8>, a: AttrView) -> Option<Seq<Run>> {
    match pairs_of(rec, a) {
        Some(p) => crate::ntfs::runs::runs_of(p, a.lowest_vcn),
        None => None,
    }
}

/// `c`, with zeros behind it up to the length `n`.
pub open spec fn zero_filled(c: Seq<u8>, n: int) -> Seq<u8> {
    Seq::new(
        n as nat,
        |i: int|
            if i < c.len() {
                c[i]
            } else {
                0u8
            },
    )
}

/// The bytes of an attribute's value that are read: all of them, or `cap`.
pub open spec fn value_len(a: AttrView, cap: u64) -> int {
    if a.real_size < cap {
        a.real_size as int
    } else {
        cap as int
    }
}

/// The value of an attribute. One that is not resident is cut off at `cap` bytes,
/// and bytes that no run holds are zeros.
pub open spec fn attr_value(
    disk: spec_fn(int) -> u8,
    boot: BootSector,
    rec: Seq<u8>,
    a: AttrView,
    cap: u64,
) -> Option<Seq<u8>> {
    if a.resident {
        Some(a.value)
    } else {
        match attr_runs(rec, a) {
            None => None,
            Some(runs) => match crate::ntfs::runs::content(disk, boot, runs, 0, value_len(a, cap)) {
                None => None,
                Some(c) => Some(zero_filled(c, value_len(a, cap))),
            },
        }
    }
}

/// Decodes the mapping pairs of an attribute.
pub fn read_runs(record: &Vec<u8>, a: &Attr) -> (r: Result<RunList, VfsError>)
    ensures
        match attr_runs(record@, a@) {
            Some(runs) => r is Ok && r->Ok_0.runs@ == runs && r->Ok_0.inv()
                && crate::ntfs::runs::disjoint(runs),
            None => r == Err::<RunList, VfsError>(VfsError::IOError),
        },
{
    if a.map_off > a.map_end || a.map_end > record.len() {
        return Err(VfsError::IOError);
    }
    let pairs: Vec<u8> = sub_vec(record, a.map_off, a.map_end);
    decode_mapping_pairs(&pairs, a.lowest_vcn)
}

/// Appends zeros up to the length `n`.
pub(crate) fn fill_zeros(buf: &mut Vec<u8>, n: usize)
    requires
        old(buf)@.len() <= n,
    ensures
        final(buf)@ == zero_filled(old(buf)@, n as int),
{
    let ghost c = buf@;
    while buf.len() < n
        invariant
            c.len() <= buf@.len() <= n,
            forall|k: int| 0 <= k < c.len() ==> #[trigger] buf@[k] == c[k],
            forall|k: int| c.len() <= k < buf@.len() ==> #[trigger] buf@[k] == 0,
        decreases n - buf@.len(),
    {
        buf.push(0);
    }
    assert(buf@ =~= zero_filled(c, n as int));
}

/// Reads the value of an attribute, up to `cap` bytes where it is not resident.
pub fn read_attr_value<D: BlockDevice>(
    device: &mut D,
    boot: &BootSector,
    record: &Vec<u8>,
    attr: &Attr,
    cap: u64,
    why: &mut LastError,
) -> (r: Result<Vec<u8>, VfsError>)
    requires
        old(device).sector_len() == 512,
        boot.inv(),
        cap <= 0x1000_0000,
    ensures
        crate::fat32::io::same_device(*final(device), *old(device)),
        final(device).disk() == old(device).disk(),
        match r {
            Ok(v) => attr_value(old(device).disk(), *boot, record@, attr@, cap) == Some(v@)
                && traits::faults(*final(device)) == traits::faults(*old(device)) && *final(why)
                == *old(why),
            Err(e) => e == VfsError::IOError && !attr.resident && final(why).noted(
                *old(why),
                detail::fault_text(*old(device), *final(device)),
            ) && (attr_value(
                old(device).disk(),
                *boot,
                record@,
                attr@,
                cap,
            ) is Some ==> traits::faults(*final(device)) > traits::faults(*old(device))),
        },
{
    if attr.resident {
        let v: Vec<u8> = sub_vec(&attr.value, 0, attr.value.len());
        assert(v@ =~= attr.value@);
        return Ok(v);
    }
    let runs: RunList = match read_runs(record, attr) {
        Ok(l) => l,
        Err(e) => return Err(e),
    };
    let want: u64 = if attr.real_size < cap {
        attr.real_size
    } else {
        cap
    };
    let mut buf: Vec<u8> = match read_file_at(device, boot, &runs, 0, want as usize, why) {
        Ok(v) => v,
        Err(e) => return Err(e),
    };
    fill_zeros(&mut buf, want as usize);
    Ok(buf)
}

impl<D: BlockDevice> NtfsSuperBlock<D> {
    pub open spec fn inv(self) -> bool {
        &&& self.device.sector_len() == 512
        &&& self.boot.inv()
        &&& self.mft_runs.inv()
    }

    /// How many submissions the device has failed to carry out so far.
    pub open spec fn faults(self) -> nat {
        traits::faults(self.device)
    }

    /// The two are one volume, on a device that still holds the same bytes.
    pub open spec fn same(self, before: Self) -> bool {
        &&& crate::fat32::io::same_device(self.device, before.device)
        &&& self.device.disk() == before.device.disk()
        &&& self.boot == before.boot
        &&& self.mft_runs == before.mft_runs
    }

    /// From `before`, a read failed with `e`: the device failed, which is an I/O error; or
    /// the volume holds what comes to `cause`, an error and a text. Either is noted.
    pub open spec fn failed_with(self, before: Self, e: VfsError, cause: Option<Failure>) -> bool {
        if self.faults() > before.faults() {
            &&& e == VfsError::IOError
            &&& self.why.noted(before.why, detail::fault_text(before.device, self.device))
        } else {
            &&& cause matches Some((x, text))
            &&& e == x
            &&& self.why.noted(before.why, text)
        }
    }

    /// From `before`, nothing failed, and nothing was noted.
    pub open spec fn unfailing(self, before: Self) -> bool {
        self.faults() == before.faults() && self.why == before.why
    }

    /// The record with number `no`.
    pub open spec fn record(self, no: int) -> Option<Seq<u8>> {
        record_of(self.device.disk(), self.boot, self.mft_runs.runs@, no)
    }

    /// Reads the record with number `mft_no`.
    pub fn read_mft_record(&mut self, mft_no: u64) -> (r: Result<Vec<u8>, VfsError>)
        requires
            old(self).inv(),
        ensures
            final(self).inv(),
            final(self).same(*old(self)),
            match r {
                Ok(v) => old(self).record(mft_no as int) == Some(v@) && v@.len()
                    == old(self).boot.record_size && final(self).unfailing(*old(self)),
                Err(e) => final(self).failed_with(
                    *old(self),
                    e,
                    record_failure(
                        old(self).device.disk(),
                        old(self).boot,
                        old(self).mft_runs.runs@,
                        mft_no as int,
                    ),
                ),
            },
            mft_no >= old(self).boot.max_records ==> r == Err::<Vec<u8>, VfsError>(
                VfsError::NotFound,
            ) && *final(self) == *old(self),
    {
        proof {
            reveal(record_failure);
            lemma_record_failure(
                self.device.disk(),
                self.boot,
                self.mft_runs.runs@,
                mft_no as int,
            );
        }
        if mft_no >= self.boot.max_records {
            return Err(VfsError::NotFound);
        }
        let offset: u64 = match mft_no.checked_mul(self.boot.record_size) {
            Some(o) => o,
            None => return Err(VfsError::IOError),
        };
        let size: u64 = self.boot.record_size;
        read_record_at(
            &mut self.device,
            &self.boot,
            &self.mft_runs,
            offset,
            size,
            &mut self.why,
        )
    }

    /// The sizes of the volume. Nothing on it can be written, so no block is free.
    pub fn statfs(&self) -> (r: Result<StatFs, VfsError>)
        requires
            self.inv(),
        ensures
            r is Ok,
            r->Ok_0.block_size == self.boot.cluster(),
            r->Ok_0.total_blocks == self.boot.total_sectors / self.boot.sectors_per_cluster as u64,
            r->Ok_0.free_blocks == 0,
    {
        Ok(
            StatFs {
                block_size: self.boot.cluster_size() as u32,
                total_blocks: self.boot.total_sectors / self.boot.sectors_per_cluster as u64,
                free_blocks: 0,
            },
        )
    }

    /// Writes what is pending, of which a volume that cannot be written has
    /// nothing.
    pub fn sync_fs(&mut self) -> (r: Result<(), VfsError>)
        ensures
            r is Ok,
            *final(self) == *old(self),
    {
        Ok(())
    }
}

} // verus!
