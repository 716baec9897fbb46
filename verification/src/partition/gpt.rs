//! GUID partition tables.

use vstd::prelude::*;

use crate::blockdriver::traits;
use crate::blockdriver::traits::BlockDevice;
use crate::bytes;
use crate::bytes::{read_le_u16, read_le_u32, read_le_u64, sub_vec};
use crate::fat32::io;
use crate::fat32::io::SECTOR_SIZE;
use crate::partition;
use crate::partition::{crc32, read_sector, read_sectors, PartView, PartitionInfo};
use crate::text::{char_of, from_chars};

verus! {

/// The bytes with which a header begins.
pub const SIGNATURE: [u8; 8] = [69, 70, 73, 32, 80, 65, 82, 84];

/// What a header says of the entries.
#[derive(Debug, Clone, Copy, PartialEq, Eq, Structural)]
pub struct GptHeader {
    pub entry_lba: u64,
    pub num_entries: u32,
    pub entry_size: u32,
}

/// The sector `s` with the bytes of the checksum cleared.
pub open spec fn without_crc(s: Seq<u8>) -> Seq<u8> {
    bytes::splice(s, 16, seq![0u8, 0u8, 0u8, 0u8])
}

/// What the header in the sector `s` says, or why it is refused.
pub open spec fn header_of(s: Seq<u8>) -> Result<GptHeader, Seq<char>> {
    let size = bytes::le32(s, 12);
    if s.take(8) != SIGNATURE@ {
        Err("GPT signature not found"@)
    } else if size < 92 || size > 512 {
        Err("GPT header size out of range"@)
    } else if partition::crc32_of(without_crc(s).take(size)) != bytes::le32(s, 16) {
        Err("GPT header CRC mismatch"@)
    } else if bytes::le32(s, 84) < 128 {
        Err("GPT entry size too small"@)
    } else {
        Ok(
            GptHeader {
                entry_lba: bytes::le64(s, 72) as u64,
                num_entries: bytes::le32(s, 80) as u32,
                entry_size: bytes::le32(s, 84) as u32,
            },
        )
    }
}

/// Reads a header.
pub fn parse_header(s: &Vec<u8>) -> (r: Result<GptHeader, &'static str>)
    requires
        s@.len() == 512,
    ensures
        match r {
            Ok(h) => header_of(s@) == Ok::<GptHeader, Seq<char>>(h),
            Err(e) => header_of(s@) == Err::<GptHeader, Seq<char>>(e@),
        },
{
    let mut k: usize = 0;
    while k < 8
        invariant
            k <= 8,
            s@.len() == 512,
            forall|j: int| 0 <= j < k ==> s@[j] == SIGNATURE@[j],
        decreases 8 - k,
    {
        if s[k] != SIGNATURE[k] {
            assert(s@.take(8)[k as int] != SIGNATURE@[k as int]);
            return Err("GPT signature not found");
        }
        k = k + 1;
    }
    assert(s@.take(8) =~= SIGNATURE@);
    let size: u32 = read_le_u32(s.as_slice(), 12);
    if size < 92 || size > 512 {
        return Err("GPT header size out of range");
    }
    let stored: u32 = read_le_u32(s.as_slice(), 16);
    let mut covered: Vec<u8> = sub_vec(s.as_slice(), 0, size as usize);
    covered[16] = 0;
    covered[17] = 0;
    covered[18] = 0;
    covered[19] = 0;
    assert(covered@ =~= without_crc(s@).take(size as int));
    if crc32(covered.as_slice()) != stored {
        return Err("GPT header CRC mismatch");
    }
    let entry_lba: u64 = read_le_u64(s.as_slice(), 72);
    let num_entries: u32 = read_le_u32(s.as_slice(), 80);
    let entry_size: u32 = read_le_u32(s.as_slice(), 84);
    if entry_size < 128 {
        return Err("GPT entry size too small");
    }
    Ok(GptHeader { entry_lba, num_entries, entry_size })
}

/// The character for two halves of a pair.
pub open spec fn paired(hi: int, lo: int) -> int {
    (hi - 0xD800) * 0x400 + (lo - 0xDC00) + 0x1_0000
}

/// Unit `i` of a name at `off`.
pub open spec fn unit(b: Seq<u8>, off: int, i: int) -> int {
    bytes::le16(b, off + 2 * i)
}

/// The 36 units of the name at `off`, from unit `i` on, as text. Zero ends the name; a half
/// without the other is shown as the replacement character.
pub open spec fn name_from(b: Seq<u8>, off: int, i: int) -> Seq<char>
    decreases 36 - i,
{
    let u = unit(b, off, i);
    let v = unit(b, off, i + 1);
    if i >= 36 || u == 0 {
        Seq::empty()
    } else if 0xD800 <= u <= 0xDBFF && i + 1 < 36 && 0xDC00 <= v <= 0xDFFF {
        seq![(paired(u, v) as u32) as char] + name_from(b, off, i + 2)
    } else if 0xD800 <= u <= 0xDFFF {
        seq!['\u{FFFD}'] + name_from(b, off, i + 1)
    } else {
        seq![(u as u32) as char] + name_from(b, off, i + 1)
    }
}

fn decode_utf16_le(b: &[u8], off: usize) -> (r: String)
    requires
        off + 72 <= b@.len(),
    ensures
        r@ == name_from(b@, off as int, 0),
{
    let mut out: Vec<char> = Vec::new();
    let mut i: usize = 0;
    let ghost bs = b@;
    assert(b@.len() == b.len());
    assert(out@ + name_from(bs, off as int, 0) =~= name_from(bs, off as int, 0));
    while i < 36
        invariant_except_break
            bs == b@,
            i <= 36,
            off + 72 <= b.len(),
            out@ + name_from(bs, off as int, i as int) == name_from(bs, off as int, 0),
        ensures
            out@ == name_from(bs, off as int, 0),
        decreases 36 - i,
    {
        let u: u16 = read_le_u16(b, off + 2 * i);
        let ghost was = out@;
        if u == 0 {
            assert(out@ + Seq::<char>::empty() =~= out@);
            break;
        }
        let mut taken: usize = 1;
        let mut c: char = '\u{FFFD}';
        if u >= 0xD800 && u <= 0xDBFF {
            if i + 1 < 36 {
                let v: u16 = read_le_u16(b, off + 2 * (i + 1));
                if v >= 0xDC00 && v <= 0xDFFF {
                    let cp: u32 = (u as u32 - 0xD800) * 0x400 + (v as u32 - 0xDC00) + 0x1_0000;
                    match char_of(cp) {
                        Some(y) => {
                            c = y;
                        },
                        None => {},
                    }
                    taken = 2;
                }
            }
        } else if !(u >= 0xDC00 && u <= 0xDFFF) {
            match char_of(u as u32) {
                Some(y) => {
                    c = y;
                },
                None => {},
            }
        }
        out.push(c);
        proof {
            let rest = name_from(bs, off as int, i + taken);
            let (x, y) = (unit(bs, off as int, i as int), unit(bs, off as int, i + 1));
            assert(x == u);
            if taken == 2 {
                vstd::utf8::char_u32_cast(c, paired(x, y) as u32);
            } else if !(0xD800 <= x <= 0xDFFF) {
                vstd::utf8::char_u32_cast(c, x as u32);
            } else {
                assert(c == '\u{FFFD}');
            }
            assert(name_from(bs, off as int, i as int) == seq![c] + rest);
            assert(was + (seq![c] + rest) =~= out@ + rest);
        }
        i = i + taken;
        if i >= 36 {
            assert(out@ + Seq::<char>::empty() =~= out@);
        }
    }
    from_chars(&out)
}

/// The identifier at `off` is not used.
pub open spec fn is_zero_guid(b: Seq<u8>, off: int) -> bool {
    forall|k: int| 0 <= k < 16 ==> #[trigger] b[off + k] == 0
}

/// The partition of the entry at `off`.
pub open spec fn gpt_part(b: Seq<u8>, off: int, number: int) -> PartView {
    let start = bytes::le64(b, off + 32);
    let end = bytes::le64(b, off + 40);
    let name = name_from(b, off + 56, 0);
    PartView {
        number: number as u32,
        start_lba: start as u64,
        end_lba: end as u64,
        size_sectors: (end - start + 1) as u64,
        partition_type: None,
        guid_type: Some(b.subrange(off, off + 16)),
        guid_unique: Some(b.subrange(off + 16, off + 32)),
        name: if name.len() == 0 {
            None
        } else {
            Some(name)
        },
        is_extended: false,
    }
}

/// The number of sectors of the entry at `off` is one of 64 bits.
pub open spec fn is_range(b: Seq<u8>, off: int) -> bool {
    0 <= bytes::le64(b, off + 40) - bytes::le64(b, off + 32) < 0xFFFF_FFFF_FFFF_FFFF
}

/// The partitions of the first `n` entries of `size` bytes in `b`. Unused entries are
/// passed over.
pub open spec fn parts_upto(b: Seq<u8>, size: int, n: int) -> Result<Seq<PartView>, Seq<char>>
    decreases n,
{
    if n <= 0 {
        Ok(Seq::empty())
    } else {
        match parts_upto(b, size, n - 1) {
            Err(e) => Err(e),
            Ok(parts) => {
                let off = (n - 1) * size;
                if off + 128 > b.len() || is_zero_guid(b, off) {
                    Ok(parts)
                } else if !is_range(b, off) {
                    Err("partition range overflow"@)
                } else {
                    Ok(parts.push(gpt_part(b, off, n)))
                }
            },
        }
    }
}

proof fn lemma_parts_err(b: Seq<u8>, size: int, n: int, m: int)
    requires
        n <= m,
        parts_upto(b, size, n) is Err,
    ensures
        parts_upto(b, size, m) == parts_upto(b, size, n),
    decreases m - n,
{
    if n < m {
        lemma_parts_err(b, size, n, m - 1);
    }
}

/// Entries behind the end of the buffer add nothing.
proof fn lemma_parts_end(b: Seq<u8>, size: int, n: int, m: int)
    requires
        0 <= n <= m,
        size >= 0,
        n * size + 128 > b.len(),
    ensures
        parts_upto(b, size, m) == parts_upto(b, size, n),
    decreases m - n,
{
    if n < m {
        lemma_parts_end(b, size, n, m - 1);
        assert((m - 1) * size >= n * size) by (nonlinear_arith)
            requires
                n <= m - 1,
                size >= 0,
        ;
    }
}

fn read_guid(b: &[u8], off: usize) -> (r: [u8; 16])
    requires
        off + 16 <= b@.len(),
    ensures
        r@ == b@.subrange(off as int, off + 16),
{
    let mut g: [u8; 16] = [0u8; 16];
    let mut k: usize = 0;
    assert(b@.len() == b.len());
    while k < 16
        invariant
            k <= 16,
            off + 16 <= b.len(),
            forall|j: int| 0 <= j < k ==> g@[j] == b@[off + j],
        decreases 16 - k,
    {
        g[k] = b[off + k];
        k = k + 1;
    }
    assert(g@ =~= b@.subrange(off as int, off + 16));
    g
}

fn guid_unused(b: &[u8], off: usize) -> (r: bool)
    requires
        off + 16 <= b@.len(),
    ensures
        r == is_zero_guid(b@, off as int),
{
    let mut k: usize = 0;
    assert(b@.len() == b.len());
    while k < 16
        invariant
            k <= 16,
            off + 16 <= b.len(),
            forall|j: int| 0 <= j < k ==> #[trigger] b@[off + j] == 0,
        decreases 16 - k,
    {
        if b[off + k] != 0 {
            assert(b@[off + k] != 0);
            return false;
        }
        k = k + 1;
    }
    true
}

/// The partitions of the entries in `b`.
pub fn parse_entries(b: &Vec<u8>, entry_size: u32, num_entries: u32) -> (r: Result<
    Vec<PartitionInfo>,
    &'static str,
>)
    requires
        entry_size >= 128,
    ensures
        match r {
            Ok(v) => parts_upto(b@, entry_size as int, num_entries as int) == Ok::<
                Seq<PartView>,
                Seq<char>,
            >(partition::part_views(v@)),
            Err(e) => parts_upto(b@, entry_size as int, num_entries as int) == Err::<
                Seq<PartView>,
                Seq<char>,
            >(e@),
        },
{
    let mut partitions: Vec<PartitionInfo> = Vec::new();
    let ghost bs = b@;
    let ghost size = entry_size as int;
    assert(partition::part_views(partitions@) =~= Seq::<PartView>::empty());
    assert(b@.len() == b.len());
    let mut i: u32 = 0;
    while i < num_entries
        invariant
            i <= num_entries,
            bs == b@,
            bs.len() == b.len(),
            size == entry_size,
            entry_size >= 128,
            parts_upto(bs, size, i as int) == Ok::<Seq<PartView>, Seq<char>>(
                partition::part_views(partitions@),
            ),
        decreases num_entries - i,
    {
        assert(i * entry_size <= 0xFFFF_FFFF * 0xFFFF_FFFF) by (nonlinear_arith)
            requires
                i <= 0xFFFF_FFFF,
                entry_size <= 0xFFFF_FFFF,
        ;
        let offset: u64 = i as u64 * entry_size as u64;
        if (b.len() as u64) < 128 || offset > b.len() as u64 - 128 {
            proof {
                lemma_parts_end(bs, size, i as int, num_entries as int);
            }
            return Ok(partitions);
        }
        let off: usize = offset as usize;
        if !guid_unused(b.as_slice(), off) {
            let start_lba: u64 = read_le_u64(b.as_slice(), off + 32);
            let end_lba: u64 = read_le_u64(b.as_slice(), off + 40);
            if end_lba < start_lba || end_lba - start_lba == u64::MAX {
                proof {
                    lemma_parts_err(bs, size, i + 1, num_entries as int);
                }
                return Err("partition range overflow");
            }
            let name: String = decode_utf16_le(b.as_slice(), off + 56);
            let ghost before = partitions@;
            let info = PartitionInfo {
                number: i + 1,
                start_lba,
                end_lba,
                size_sectors: end_lba - start_lba + 1,
                partition_type: None,
                guid_type: Some(read_guid(b.as_slice(), off)),
                guid_unique: Some(read_guid(b.as_slice(), off + 16)),
                name: if name.as_str().is_empty() {
                    None
                } else {
                    Some(name)
                },
                is_extended: false,
            };
            assert(info@ =~= gpt_part(bs, off as int, i + 1));
            partitions.push(info);
            assert(partition::part_views(partitions@) =~= partition::part_views(before).push(
                gpt_part(bs, off as int, i + 1),
            ));
        }
        i = i + 1;
    }
    Ok(partitions)
}

/// The number of sectors that the entries take.
pub open spec fn entry_sectors(h: GptHeader) -> int {
    (h.num_entries * h.entry_size + 511) / 512
}

/// The partitions that the table on the device `d` lists, or why it is refused.
pub open spec fn gpt_partitions(d: spec_fn(int) -> u8) -> Result<Seq<PartView>, Seq<char>> {
    match header_of(io::disk_range(d, 512, 512)) {
        Err(e) => Err(e),
        Ok(h) => parts_upto(
            io::disk_range(d, h.entry_lba * 512, entry_sectors(h) * 512),
            h.entry_size as int,
            h.num_entries as int,
        ),
    }
}

/// The entries fit into memory, and their sectors can be counted in one request.
pub open spec fn entries_fit(h: GptHeader) -> bool {
    entry_sectors(h) <= u32::MAX && entry_sectors(h) <= usize::MAX / SECTOR_SIZE
}

/// What becomes of the table on the device `d` if every read succeeds.
pub open spec fn gpt_table(d: spec_fn(int) -> u8) -> Result<Seq<PartView>, Seq<char>> {
    match header_of(io::disk_range(d, 512, 512)) {
        Ok(h) => if entries_fit(h) {
            gpt_partitions(d)
        } else {
            Err("multi-sector read error"@)
        },
        Err(e) => Err(e),
    }
}

/// What becomes of the table on the device `d`, whose answers were `before` and then
/// `after`: a read that fails is the last one.
pub open spec fn gpt_outcome(
    d: spec_fn(int) -> u8,
    before: Seq<traits::Answer>,
    after: Seq<traits::Answer>,
) -> Result<Seq<PartView>, Seq<char>> {
    if traits::none_failed(before, after) {
        gpt_table(d)
    } else {
        Err(
            partition::reason(
                after.last(),
                if after.len() == before.len() + 1 {
                    "sector read error"@
                } else {
                    "multi-sector read error"@
                },
            ),
        )
    }
}

/// The partitions of the table whose header is in sector 1. Reads of the device may fail;
/// where none does, the result is what the device holds. A list of entries that is larger
/// than memory cannot be read.
pub fn parse<D: BlockDevice>(device: &mut D) -> (r: Result<Vec<PartitionInfo>, &'static str>)
    requires
        old(device).sector_len() == SECTOR_SIZE,
    ensures
        io::same_device(*final(device), *old(device)),
        final(device).disk() == old(device).disk(),
        traits::continues(old(device).answers(), final(device).answers()),
        gpt_outcome(old(device).disk(), old(device).answers(), final(device).answers())
            == partition::outcome(r),
        r matches Ok(v) ==> gpt_partitions(old(device).disk()) == Ok::<Seq<PartView>, Seq<char>>(
            partition::part_views(v@),
        ),
{
    let sector: Vec<u8> = match read_sector(device, 1) {
        Ok(v) => v,
        Err(e) => return Err(e),
    };
    let h: GptHeader = match parse_header(&sector) {
        Ok(h) => h,
        Err(e) => return Err(e),
    };
    assert(h.num_entries * h.entry_size <= 0xFFFF_FFFF * 0xFFFF_FFFF) by (nonlinear_arith)
        requires
            h.num_entries <= 0xFFFF_FFFF,
            h.entry_size <= 0xFFFF_FFFF,
    ;
    let total: u64 = h.num_entries as u64 * h.entry_size as u64;
    let sectors: u64 = (total + 511) / 512;
    if sectors > u32::MAX as u64 || sectors > (usize::MAX / SECTOR_SIZE) as u64 {
        return Err("multi-sector read error");
    }
    let buf: Vec<u8> = match read_sectors(device, h.entry_lba, sectors as u32) {
        Ok(v) => v,
        Err(e) => return Err(e),
    };
    parse_entries(&buf, h.entry_size, h.num_entries)
}

} // verus!
