//! Sectors of a volume.

use crate::blockdriver::traits;
use crate::blockdriver::traits::{BlockDevice, IoBuffer, IoRequest};
use crate::fat32::io;
use crate::ntfs::detail;
use crate::ntfs::detail::LastError;
use crate::vfs::VfsError;
use vstd::prelude::*;

verus! {

/// Reads `count` sectors from sector `lba` on, and notes what became of it where it fails.
pub fn read_sectors<D: BlockDevice>(device: &mut D, lba: u64, count: u32, why: &mut LastError) -> (r:
    Result<Vec<u8>, VfsError>)
    requires
        old(device).sector_len() == 512,
        count * 512 <= usize::MAX,
    ensures
        io::same_device(*final(device), *old(device)),
        final(device).disk() == old(device).disk(),
        traits::one_more(old(device).answers(), final(device).answers()),
        match r {
            Ok(v) => v@ == io::disk_range(old(device).disk(), lba * 512, count * 512)
                && traits::faults(*final(device)) == traits::faults(*old(device)) && *final(why)
                == *old(why),
            Err(e) => e == VfsError::IOError && traits::faults(*final(device)) > traits::faults(
                *old(device),
            ) && final(why).noted(*old(why), detail::fault_text(*old(device), *final(device))),
        },
{
    let buf: Vec<u8> = vec![0u8; count as usize * 512];
    let mut reqs: Vec<IoRequest> = Vec::new();
    reqs.push(IoRequest { lba, count, buffer: IoBuffer::Buf(buf), is_write: false });
    let ghost rq = reqs@;
    let res = device.submit(&mut reqs);
    proof {
        traits::lemma_failures_push(old(device).answers(), res);
    }
    assert(device.disk() =~= old(device).disk());
    let ghost done = reqs@;
    match res {
        Ok(c) => {
            if !c.all_ok() {
                why.set_last_error_if_none("sector read: io completion error");
                return Err(VfsError::IOError);
            }
        },
        Err(_) => {
            why.set_last_error_if_none("sector read: submit failed");
            return Err(VfsError::IOError);
        },
    }
    assert(traits::same_request(rq[0], done[0]));
    match reqs.pop() {
        Some(IoRequest { lba: _, count: _, buffer: IoBuffer::Buf(v), is_write: _ }) => {
            assert forall|k: int| 0 <= k < count * 512 implies v@[k] == old(device).disk()(
                lba * 512 + k,
            ) by {
                assert(v@[k] == traits::payload(done[0].buffer)[k]);
            }
            assert(v@ =~= io::disk_range(old(device).disk(), lba * 512, count * 512));
            Ok(v)
        },
        _ => {
            assert(false);
            Err(VfsError::IOError)
        },
    }
}

} // verus!
