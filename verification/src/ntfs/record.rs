//! MFT records and the protection of their sectors against torn writes.

use crate::blockdriver::traits;
use crate::blockdriver::traits::BlockDevice;
use crate::bytes::{put_le_u16, read_le_u16, read_le_u32};
use crate::ntfs::boot::BootSector;
use crate::ntfs::detail;
use crate::ntfs::detail::LastError;
use crate::ntfs::runs::{read_file_at, RunList};
use crate::vfs::VfsError;
use vstd::prelude::*;

verus! {

/// "FILE".
pub const RECORD_MAGIC: u32 = 0x454C_4946;

/// Where the saved sector tails stand; the first of them is the number that every
/// tail carries instead.
pub open spec fn usa_off(d: Seq<u8>) -> int {
    crate::bytes::le16(d, 4)
}

/// The number of entries there.
pub open spec fn usa_count(d: Seq<u8>) -> int {
    crate::bytes::le16(d, 6)
}

/// The place of the last two bytes of sector `k`.
pub open spec fn tail_of(k: int, ss: int) -> int {
    k * ss + ss - 2
}

/// Every sector carries the number at its end.
pub open spec fn tails_agree(d: Seq<u8>, ss: int) -> bool {
    forall|k: int|
        0 <= k < d.len() as int / ss ==> crate::bytes::le16(d, #[trigger] tail_of(k, ss))
            == crate::bytes::le16(d, usa_off(d))
}

/// The record is whole: its array is well placed, has an entry for each sector, and
/// every sector carries the number.
pub open spec fn is_whole(d: Seq<u8>, ss: int) -> bool {
    &&& d.len() >= 8
    &&& usa_off(d) >= 8
    &&& d.len() as int % ss == 0
    &&& d.len() >= ss
    &&& usa_count(d) == d.len() as int / ss + 1
    &&& usa_off(d) + usa_count(d) * 2 <= d.len()
    &&& tails_agree(d, ss)
}

/// The record with the tails of its first `k` sectors put back, sector `s` from
/// entry `s + 1`.
pub open spec fn restored(d: Seq<u8>, off: int, ss: int, k: nat) -> Seq<u8>
    decreases k,
{
    if k == 0 {
        d
    } else {
        let before = restored(d, off, ss, (k - 1) as nat);
        crate::bytes::splice(before, tail_of(k - 1, ss), before.subrange(off + 2 * k, off + 2 * k + 2))
    }
}

/// The record as it was before it was written.
pub open spec fn fixed(d: Seq<u8>, ss: int) -> Seq<u8> {
    restored(d, usa_off(d), ss, (d.len() as int / ss) as nat)
}

/// A sector of a record lies within it.
proof fn lemma_sector_inside(len: int, ss: int, k: int)
    requires
        ss > 0,
        len >= 0,
        0 <= k < len / ss,
    ensures
        0 <= k * ss,
        k * ss + ss <= len,
{
    vstd::arithmetic::div_mod::lemma_fundamental_div_mod(len, ss);
    let q = len / ss;
    assert((k + 1) * ss <= q * ss) by (nonlinear_arith)
        requires
            k + 1 <= q,
            ss > 0,
    ;
    assert((k + 1) * ss == k * ss + ss) by (nonlinear_arith);
    assert(q * ss == ss * q) by (nonlinear_arith);
    assert(0 <= k * ss) by (nonlinear_arith)
        requires
            0 <= k,
            ss > 0,
    ;
}

/// The tail of sector `k` carries the number.
pub open spec fn tail_agrees(d: Seq<u8>, ss: int, k: int) -> bool {
    crate::bytes::le16(d, tail_of(k, ss)) == crate::bytes::le16(d, usa_off(d))
}

/// Why a record is not whole; nothing where it is.
pub open spec fn torn_text(d: Seq<u8>, ss: int) -> Option<Seq<char>> {
    if d.len() < 6 {
        Some("usa_fixup: usa_off OOB"@)
    } else if d.len() < 8 {
        Some("usa_fixup: usa_count OOB"@)
    } else if usa_off(d) < 8 || usa_count(d) < 1 {
        Some("usa_fixup: bad usa_off/count"@)
    } else if d.len() as int % ss != 0 || d.len() < ss {
        Some("usa_fixup: record size not multiple of sector"@)
    } else if usa_off(d) + usa_count(d) * 2 > d.len() {
        Some("usa_fixup: USA array OOB"@)
    } else if !tail_agrees(d, ss, 0) {
        Some("usa_fixup: sector0 USN mismatch (torn write)"@)
    } else if usa_count(d) != d.len() as int / ss + 1 {
        Some("usa_fixup: usa_count != sectors+1"@)
    } else if !tails_agree(d, ss) {
        Some("usa_fixup: sector USN mismatch (torn write)"@)
    } else {
        None
    }
}

/// How many tails are put back before a record turns out not to be whole: those of the
/// sectors before the first, from sector `k` on, that does not carry the number.
pub open spec fn put_back(d: Seq<u8>, ss: int, k: int) -> nat
    decreases d.len() as int / ss - k,
{
    if k >= d.len() as int / ss || !tail_agrees(d, ss, k) {
        k as nat
    } else {
        put_back(d, ss, k + 1)
    }
}

/// The record is well formed, and its first sector carries the number; a later one does not.
pub open spec fn is_torn_late(d: Seq<u8>, ss: int) -> bool {
    &&& d.len() >= 8
    &&& usa_off(d) >= 8
    &&& d.len() as int % ss == 0
    &&& d.len() >= ss
    &&& usa_count(d) == d.len() as int / ss + 1
    &&& usa_off(d) + usa_count(d) * 2 <= d.len()
    &&& tail_agrees(d, ss, 0)
    &&& !tails_agree(d, ss)
}

/// What is left of a record that is not whole: it is as it was, unless a later sector shows
/// it to be torn; the tails of the sectors before that one are back by then.
pub open spec fn left_torn(d: Seq<u8>, ss: int) -> Seq<u8> {
    if is_torn_late(d, ss) {
        restored(d, usa_off(d), ss, put_back(d, ss, 0))
    } else {
        d
    }
}

/// Putting tails back leaves the tails of the sectors behind alone.
proof fn lemma_tail_untouched(d: Seq<u8>, off: int, ss: int, k: nat, j: int)
    requires
        ss >= 2,
        k <= j < d.len() as int / ss,
        0 <= off,
        off + 2 * k + 2 <= d.len(),
    ensures
        restored(d, off, ss, k).len() == d.len(),
        crate::bytes::le16(restored(d, off, ss, k), tail_of(j, ss)) == crate::bytes::le16(
            d,
            tail_of(j, ss),
        ),
    decreases k,
{
    if k > 0 {
        lemma_tail_untouched(d, off, ss, (k - 1) as nat, j);
        lemma_sector_inside(d.len() as int, ss, k - 1);
        lemma_sector_inside(d.len() as int, ss, j);
        assert(tail_of(k - 1, ss) + 2 <= tail_of(j, ss)) by (nonlinear_arith)
            requires
                k <= j,
                ss >= 2,
                tail_of(k - 1, ss) == (k - 1) * ss + ss - 2,
                tail_of(j, ss) == j * ss + ss - 2,
        ;
    }
}

/// Checks a record against torn writes and puts the tails of its sectors back. What is wrong
/// with one that is not whole is noted.
pub fn usa_fixup(data: &mut Vec<u8>, sector_size: usize, why: &mut LastError) -> (r: Result<
    (),
    VfsError,
>)
    requires
        sector_size >= 2,
    ensures
        r is Ok <==> is_whole(old(data)@, sector_size as int),
        r is Ok ==> final(data)@ == fixed(old(data)@, sector_size as int) && final(data)@.len()
            == old(data)@.len(),
        r is Err ==> r->Err_0 == VfsError::IOError && final(data)@ == left_torn(
            old(data)@,
            sector_size as int,
        ),
        final(why).noted(*old(why), torn_text(old(data)@, sector_size as int)),
{
    let ghost d = data@;
    let ghost ss = sector_size as int;
    if data.len() < 6 {
        why.set_last_error_if_none("usa_fixup: usa_off OOB");
        return Err(VfsError::IOError);
    }
    if data.len() < 8 {
        why.set_last_error_if_none("usa_fixup: usa_count OOB");
        return Err(VfsError::IOError);
    }
    let off: usize = read_le_u16(data, 4) as usize;
    let count: usize = read_le_u16(data, 6) as usize;
    if off < 8 || count < 1 {
        why.set_last_error_if_none("usa_fixup: bad usa_off/count");
        assert(usa_count(data@) >= 0);
        return Err(VfsError::IOError);
    }
    if data.len() % sector_size != 0 || data.len() < sector_size {
        why.set_last_error_if_none("usa_fixup: record size not multiple of sector");
        return Err(VfsError::IOError);
    }
    if off + count * 2 > data.len() {
        why.set_last_error_if_none("usa_fixup: USA array OOB");
        return Err(VfsError::IOError);
    }
    let usn: u16 = read_le_u16(data, off);
    assert(tail_of(0, ss) == ss - 2);
    let sectors: usize = data.len() / sector_size;
    assert(sectors >= 1) by (nonlinear_arith)
        requires
            sectors == d.len() as int / ss,
            d.len() >= ss,
            ss > 0,
    ;
    if read_le_u16(data, sector_size - 2) != usn {
        why.set_last_error_if_none("usa_fixup: sector0 USN mismatch (torn write)");
        assert(!tail_agrees(d, ss, 0));
        return Err(VfsError::IOError);
    }
    if count - 1 != sectors {
        why.set_last_error_if_none("usa_fixup: usa_count != sectors+1");
        return Err(VfsError::IOError);
    }
    let mut k: usize = 0;
    while k < sectors
        invariant
            sector_size >= 2,
            ss == sector_size,
            k <= sectors,
            1 <= sectors,
            sectors == d.len() as int / ss,
            d.len() as int % ss == 0,
            d.len() >= 8,
            d.len() >= ss,
            8 <= off,
            off == usa_off(d),
            count == usa_count(d),
            count == sectors + 1,
            usn == crate::bytes::le16(d, off as int),
            off + count * 2 <= d.len(),
            tail_agrees(d, ss, 0),
            d == old(data)@,
            *why == *old(why),
            data@.len() == d.len(),
            data@ == restored(d, off as int, ss, k as nat),
            put_back(d, ss, 0) == put_back(d, ss, k as int),
            forall|j: int| #![trigger tail_of(j, ss)] 0 <= j < k ==> tail_agrees(d, ss, j),
        decreases sectors - k,
    {
        proof {
            lemma_sector_inside(d.len() as int, ss, k as int);
            lemma_tail_untouched(d, off as int, ss, k as nat, k as int);
            assert(data@.len() == data.len());
        }
        let tail: usize = k * sector_size + sector_size - 2;
        assert(tail == tail_of(k as int, ss));
        if read_le_u16(data, tail) != usn {
            why.set_last_error_if_none("usa_fixup: sector USN mismatch (torn write)");
            assert(!tail_agrees(d, ss, k as int));
            assert(!tails_agree(d, ss));
            return Err(VfsError::IOError);
        }
        let from: usize = off + 2 * (k + 1);
        let saved: u16 = read_le_u16(data, from);
        let ghost d0 = data@;
        put_le_u16(data, tail, saved);
        proof {
            assert(crate::bytes::le16_bytes(saved as int) =~= d0.subrange(
                from as int,
                from + 2,
            ));
            assert(tail_agrees(d, ss, k as int));
        }
        k = k + 1;
    }
    Ok(())
}

/// The record that a file holds at `offset`, if it is whole and a record.
pub open spec fn record_in(
    disk: spec_fn(int) -> u8,
    boot: BootSector,
    runs: Seq<crate::ntfs::runs::Run>,
    offset: int,
    size: int,
) -> Option<Seq<u8>> {
    match crate::ntfs::runs::content(disk, boot, runs, offset, size) {
        Some(d) => if d.len() == size && is_whole(d, 512) && crate::bytes::le32(fixed(d, 512), 0)
            == RECORD_MAGIC {
            Some(fixed(d, 512))
        } else {
            None
        },
        None => None,
    }
}

/// Why there is no record at `offset`; nothing where there is one.
pub open spec fn record_text(
    disk: spec_fn(int) -> u8,
    boot: BootSector,
    runs: Seq<crate::ntfs::runs::Run>,
    offset: int,
    size: int,
) -> Option<Seq<char>> {
    match crate::ntfs::runs::content(disk, boot, runs, offset, size) {
        None => Some("read_record_at: read_file_at failed"@),
        Some(d) => if d.len() != size {
            Some("read_record_at: short read"@)
        } else if torn_text(d, 512) is Some {
            torn_text(d, 512)
        } else if crate::bytes::le32(fixed(d, 512), 0) != RECORD_MAGIC {
            Some("read_record_at: FILE magic miss"@)
        } else {
            None
        },
    }
}

/// There is a text for a record that is not whole, and for no other.
pub proof fn lemma_torn_text(d: Seq<u8>, ss: int)
    requires
        ss >= 2,
    ensures
        torn_text(d, ss) is None <==> is_whole(d, ss),
{
    if d.len() >= ss {
        assert(d.len() as int / ss >= 1) by (nonlinear_arith)
            requires
                d.len() >= ss,
                ss >= 2,
        ;
        assert(tail_of(0, ss) == ss - 2);
    }
}

/// There is a text where there is no record, and nowhere else.
pub proof fn lemma_record_text(
    disk: spec_fn(int) -> u8,
    boot: BootSector,
    runs: Seq<crate::ntfs::runs::Run>,
    offset: int,
    size: int,
)
    requires
        boot.inv(),
        size >= 0,
    ensures
        record_text(disk, boot, runs, offset, size) is None <==> record_in(
            disk,
            boot,
            runs,
            offset,
            size,
        ) is Some,
{
    if let Some(d) = crate::ntfs::runs::content(disk, boot, runs, offset, size) {
        lemma_torn_text(d, 512);
    }
}

/// Reads a record through the runs of the file that it stands in. Why there is none, or how
/// the device failed, is noted.
pub fn read_record_at<D: BlockDevice>(
    device: &mut D,
    boot: &BootSector,
    runs: &RunList,
    offset: u64,
    record_size: u64,
    why: &mut LastError,
) -> (r: Result<Vec<u8>, VfsError>)
    requires
        old(device).sector_len() == 512,
        boot.inv(),
        runs.inv(),
        512 <= record_size <= 65536,
    ensures
        crate::fat32::io::same_device(*final(device), *old(device)),
        final(device).disk() == old(device).disk(),
        match r {
            Ok(v) => {
                &&& record_in(
                    old(device).disk(),
                    *boot,
                    runs.runs@,
                    offset as int,
                    record_size as int,
                ) == Some(v@)
                &&& v@.len() == record_size
                &&& traits::faults(*final(device)) == traits::faults(*old(device))
                &&& *final(why) == *old(why)
            },
            Err(e) => {
                let text = record_text(
                    old(device).disk(),
                    *boot,
                    runs.runs@,
                    offset as int,
                    record_size as int,
                );
                &&& e == VfsError::IOError
                &&& if traits::faults(*final(device)) > traits::faults(*old(device)) {
                    final(why).noted(*old(why), detail::fault_text(*old(device), *final(device)))
                } else {
                    text is Some && final(why).noted(*old(why), text)
                }
            },
        },
{
    let mut buf: Vec<u8> = match read_file_at(
        device,
        boot,
        runs,
        offset,
        record_size as usize,
        why,
    ) {
        Ok(v) => v,
        Err(e) => {
            why.set_last_error_if_none("read_record_at: read_file_at failed");
            return Err(e);
        },
    };
    if buf.len() < record_size as usize {
        why.set_last_error_if_none("read_record_at: short read");
        return Err(VfsError::IOError);
    }
    if let Err(e) = usa_fixup(&mut buf, 512, why) {
        return Err(e);
    }
    if read_le_u32(&buf, 0) != RECORD_MAGIC {
        why.set_last_error_if_none("read_record_at: FILE magic miss");
        return Err(VfsError::IOError);
    }
    Ok(buf)
}

} // verus!
