//! Partition tables, and partitions as devices.

use vstd::prelude::*;

use crate::blockdriver::traits;
use crate::blockdriver::traits::{BlockDevice, IoBuffer, IoRequest};
use crate::fat32::io;
use crate::fat32::io::SECTOR_SIZE;

pub mod attempt;
pub mod device;
pub mod gpt;
pub mod laws;
pub mod mbr;

verus! {

/// Most extended boot records that are followed.
pub const MAX_EBR_CHAIN: u32 = 100;

/// A partition.
pub struct PartitionInfo {
    pub number: u32,
    pub start_lba: u64,
    pub end_lba: u64,
    pub size_sectors: u64,
    /// The type in a master boot record. None for the entries of a GUID partition table,
    /// whose type is `guid_type`.
    pub partition_type: Option<u8>,
    pub guid_type: Option<[u8; 16]>,
    pub guid_unique: Option<[u8; 16]>,
    pub name: Option<String>,
    pub is_extended: bool,
}

/// A partition, by what its fields stand for.
#[verifier::ext_equal]
pub struct PartView {
    pub number: u32,
    pub start_lba: u64,
    pub end_lba: u64,
    pub size_sectors: u64,
    pub partition_type: Option<u8>,
    pub guid_type: Option<Seq<u8>>,
    pub guid_unique: Option<Seq<u8>>,
    pub name: Option<Seq<char>>,
    pub is_extended: bool,
}

/// The bytes of an identifier, where there is one.
pub open spec fn guid_view(g: Option<[u8; 16]>) -> Option<Seq<u8>> {
    match g {
        Some(b) => Some(b@),
        None => None,
    }
}

impl View for PartitionInfo {
    type V = PartView;

    open spec fn view(&self) -> PartView {
        PartView {
            number: self.number,
            start_lba: self.start_lba,
            end_lba: self.end_lba,
            size_sectors: self.size_sectors,
            partition_type: self.partition_type,
            guid_type: guid_view(self.guid_type),
            guid_unique: guid_view(self.guid_unique),
            name: match self.name {
                Some(s) => Some(s@),
                None => None,
            },
            is_extended: self.is_extended,
        }
    }
}

/// What partitions stand for.
pub open spec fn part_views(v: Seq<PartitionInfo>) -> Seq<PartView> {
    v.map_values(|p: PartitionInfo| p@)
}

/// What the partitions that were found, or the error, stand for.
pub open spec fn outcome(r: Result<Vec<PartitionInfo>, &'static str>) -> Result<
    Seq<PartView>,
    Seq<char>,
> {
    match r {
        Ok(v) => Ok(part_views(v@)),
        Err(e) => Err(e@),
    }
}

/// Why a request came to nothing: the device's own error, or else `failed`.
pub open spec fn reason(a: traits::Answer, failed: Seq<char>) -> Seq<char> {
    match a {
        Ok(_) => failed,
        Err(e) => e@,
    }
}

/// Reads `count` sectors. The error of the device is handed on; `failed` is that of a
/// request that was not carried out.
fn read_run<D: BlockDevice>(device: &mut D, lba: u64, count: u32, failed: &'static str) -> (r:
    Result<Vec<u8>, &'static str>)
    requires
        old(device).sector_len() == SECTOR_SIZE,
        count * SECTOR_SIZE <= usize::MAX,
    ensures
        io::same_device(*final(device), *old(device)),
        final(device).disk() == old(device).disk(),
        traits::one_more(old(device).answers(), final(device).answers()),
        match r {
            Ok(v) => traits::carried_out(final(device).answers().last()) && v@ == io::disk_range(
                old(device).disk(),
                lba * 512,
                count * 512,
            ),
            Err(e) => !traits::carried_out(final(device).answers().last()) && e@ == reason(
                final(device).answers().last(),
                failed@,
            ),
        },
{
    let buf: Vec<u8> = vec![0u8; count as usize * SECTOR_SIZE];
    let mut reqs: Vec<IoRequest> = Vec::new();
    reqs.push(IoRequest { lba, count, buffer: IoBuffer::Buf(buf), is_write: false });
    let ghost rq = reqs@;
    let res = device.submit(&mut reqs);
    proof {
        traits::lemma_failures_push(old(device).answers(), res);
    }
    assert(device.disk() =~= old(device).disk());
    let ghost done = reqs@;
    match res {
        Ok(c) => {
            if !c.all_ok() {
                return Err(failed);
            }
            match reqs.pop() {
                Some(IoRequest { lba: _, count: _, buffer: IoBuffer::Buf(v), is_write: _ }) => {
                    assert forall|k: int| 0 <= k < count * 512 implies v@[k] == old(device).disk()(
                        lba * 512 + k,
                    ) by {
                        assert(v@[k] == traits::payload(done[0].buffer)[k]);
                        assert(traits::same_request(rq[0], done[0]));
                    }
                    assert(v@ =~= io::disk_range(old(device).disk(), lba * 512, count * 512));
                    Ok(v)
                },
                _ => Err(failed),
            }
        },
        Err(e) => Err(e),
    }
}

/// Reads a sector. The error of the device is handed on.
pub fn read_sector<D: BlockDevice>(device: &mut D, lba: u64) -> (r: Result<Vec<u8>, &'static str>)
    requires
        old(device).sector_len() == SECTOR_SIZE,
    ensures
        io::same_device(*final(device), *old(device)),
        final(device).disk() == old(device).disk(),
        traits::one_more(old(device).answers(), final(device).answers()),
        match r {
            Ok(v) => traits::carried_out(final(device).answers().last()) && v@ == io::disk_range(
                old(device).disk(),
                lba * 512,
                512,
            ),
            Err(e) => !traits::carried_out(final(device).answers().last()) && e@ == reason(
                final(device).answers().last(),
                "sector read error"@,
            ),
        },
{
    read_run(device, lba, 1, "sector read error")
}

/// Reads `count` sectors. The error of the device is handed on.
pub fn read_sectors<D: BlockDevice>(device: &mut D, lba: u64, count: u32) -> (r: Result<
    Vec<u8>,
    &'static str,
>)
    requires
        old(device).sector_len() == SECTOR_SIZE,
        count * SECTOR_SIZE <= usize::MAX,
    ensures
        io::same_device(*final(device), *old(device)),
        final(device).disk() == old(device).disk(),
        traits::one_more(old(device).answers(), final(device).answers()),
        match r {
            Ok(v) => traits::carried_out(final(device).answers().last()) && v@ == io::disk_range(
                old(device).disk(),
                lba * 512,
                count * 512,
            ),
            Err(e) => !traits::carried_out(final(device).answers().last()) && e@ == reason(
                final(device).answers().last(),
                "multi-sector read error"@,
            ),
        },
{
    read_run(device, lba, count, "multi-sector read error")
}

/// A step of the checksum by one bit.
pub open spec fn crc_bit(crc: u32) -> u32 {
    if crc & 1 != 0 {
        (crc >> 1) ^ 0xEDB8_8320
    } else {
        crc >> 1
    }
}

/// `n` steps of the checksum by one bit.
pub open spec fn crc_bits(crc: u32, n: int) -> u32
    decreases n,
{
    if n <= 0 {
        crc
    } else {
        crc_bit(crc_bits(crc, n - 1))
    }
}

/// The checksum register after the first `n` bytes of `b`.
pub open spec fn crc_upto(b: Seq<u8>, n: int) -> u32
    decreases n,
{
    if n <= 0 {
        0xFFFF_FFFF
    } else {
        crc_bits(crc_upto(b, n - 1) ^ (b[n - 1] as u32), 8)
    }
}

/// The checksum of `b`: that of Ethernet and ZIP.
pub open spec fn crc32_of(b: Seq<u8>) -> u32 {
    !crc_upto(b, b.len() as int)
}

/// The checksum of `buf`.
pub fn crc32(buf: &[u8]) -> (r: u32)
    ensures
        r == crc32_of(buf@),
{
    let mut crc: u32 = 0xFFFF_FFFF;
    let mut i: usize = 0;
    while i < buf.len()
        invariant
            i <= buf@.len(),
            crc == crc_upto(buf@, i as int),
        decreases buf@.len() - i,
    {
        crc = crc ^ (buf[i] as u32);
        let ghost start = crc;
        let mut k: u32 = 0;
        while k < 8
            invariant
                k <= 8,
                crc == crc_bits(start, k as int),
            decreases 8 - k,
        {
            if crc & 1 != 0 {
                crc = (crc >> 1) ^ 0xEDB8_8320;
            } else {
                crc = crc >> 1;
            }
            k = k + 1;
        }
        i = i + 1;
    }
    !crc
}

/// The partitions of a device, by the kind of table that lists them.
pub enum PartitionTable {
    Mbr(Vec<PartitionInfo>),
    Gpt(Vec<PartitionInfo>),
}

impl PartitionTable {
    pub open spec fn listed(self) -> Seq<PartitionInfo> {
        match self {
            PartitionTable::Mbr(p) => p@,
            PartitionTable::Gpt(p) => p@,
        }
    }

    pub fn partitions(&self) -> (r: &[PartitionInfo])
        ensures
            r@ == self.listed(),
    {
        match self {
            PartitionTable::Mbr(p) => p.as_slice(),
            PartitionTable::Gpt(p) => p.as_slice(),
        }
    }
}

/// The partition holds data: it is not one that holds other partitions, and not empty.
pub open spec fn is_real(p: PartView) -> bool {
    !p.is_extended && p.size_sectors > 0
}

/// No two partitions that hold data claim the same sector. Of two, the one that begins
/// first, or is listed first, ends before the other begins.
pub open spec fn disjoint_parts(v: Seq<PartView>) -> bool {
    forall|i: int, j: int|
        0 <= i < v.len() && 0 <= j < v.len() && i != j && is_real(#[trigger] v[i]) && is_real(
            #[trigger] v[j],
        ) && (v[i].start_lba < v[j].start_lba || (v[i].start_lba == v[j].start_lba && i < j))
            ==> v[i].start_lba + v[i].size_sectors <= v[j].start_lba
}

/// Why partitions were refused.
pub open spec fn overlap_reason(v: Seq<PartView>, e: Seq<char>) -> bool {
    ||| e == "overlapping partitions"@ && exists|i: int, j: int|
        0 <= i < v.len() && 0 <= j < v.len() && i != j && is_real(#[trigger] v[i]) && is_real(
            #[trigger] v[j],
        ) && v[i].start_lba <= v[j].start_lba < v[i].start_lba + v[i].size_sectors
    ||| e == "partition range overflow"@ && exists|i: int|
        0 <= i < v.len() && is_real(#[trigger] v[i]) && v[i].start_lba + v[i].size_sectors
            > u64::MAX
}

/// Partition `a` begins before partition `b`, or with it and is listed first.
pub open spec fn comes_first(v: Seq<PartView>, a: int, b: int) -> bool {
    v[a].start_lba < v[b].start_lba || (v[a].start_lba == v[b].start_lba && a < b)
}

/// `order` are the partitions among the first `n` that hold data, by their beginning.
pub open spec fn is_order(v: Seq<PartView>, order: Seq<usize>, n: int) -> bool {
    &&& forall|p: int|
        0 <= p < order.len() ==> 0 <= #[trigger] order[p] < n && is_real(v[order[p] as int])
    &&& forall|p: int, q: int|
        0 <= p < q < order.len() ==> comes_first(
            v,
            #[trigger] order[p] as int,
            #[trigger] order[q] as int,
        )
    &&& forall|i: int| 0 <= i < n && is_real(#[trigger] v[i]) ==> order.contains(i as usize)
}

fn order_by_start(parts: &[PartitionInfo]) -> (r: Vec<usize>)
    ensures
        is_order(part_views(parts@), r@, parts@.len() as int),
{
    let ghost v = part_views(parts@);
    let mut order: Vec<usize> = Vec::new();
    let mut i: usize = 0;
    assert(parts@.len() == parts.len());
    while i < parts.len()
        invariant
            i <= parts.len(),
            v == part_views(parts@),
            is_order(v, order@, i as int),
        decreases parts.len() - i,
    {
        assert(v[i as int] == parts@[i as int]@);
        if !parts[i].is_extended && parts[i].size_sectors > 0 {
            let start: u64 = parts[i].start_lba;
            let mut at: usize = order.len();
            while at > 0 && parts[order[at - 1]].start_lba > start
                invariant
                    at <= order@.len(),
                    i < parts.len(),
                    v == part_views(parts@),
                    start == v[i as int].start_lba,
                    is_order(v, order@, i as int),
                    forall|p: int|
                        at <= p < order@.len() ==> v[#[trigger] order@[p] as int].start_lba > start,
                decreases at,
            {
                assert(order@[at - 1] < i);
                assert(v[order@[at - 1] as int] == parts@[order@[at - 1] as int]@);
                at = at - 1;
            }
            let ghost before = order@;
            proof {
                if at > 0 {
                    assert(before[at - 1] < i);
                    assert(v[before[at - 1] as int] == parts@[before[at - 1] as int]@);
                }
            }
            order.insert(at, i);
            proof {
                lemma_inserted(v, before, at as int, i, order@);
            }
        } else {
            assert forall|k: int| 0 <= k < i + 1 && is_real(#[trigger] v[k]) implies order@.contains(
                k as usize,
            ) by {
                assert(k != i);
            }
        }
        i = i + 1;
    }
    order
}

/// Putting the next partition at its place keeps the order.
proof fn lemma_inserted(v: Seq<PartView>, before: Seq<usize>, at: int, i: usize, after: Seq<usize>)
    requires
        is_order(v, before, i as int),
        0 <= at <= before.len(),
        is_real(v[i as int]),
        after == before.insert(at, i),
        at > 0 ==> v[before[at - 1] as int].start_lba <= v[i as int].start_lba,
        forall|p: int|
            at <= p < before.len() ==> v[#[trigger] before[p] as int].start_lba
                > v[i as int].start_lba,
    ensures
        is_order(v, after, i + 1),
{
    assert forall|p: int, q: int| 0 <= p < q < after.len() implies comes_first(
        v,
        #[trigger] after[p] as int,
        #[trigger] after[q] as int,
    ) by {
        let bp = if p < at {
            p
        } else {
            p - 1
        };
        let bq = if q < at {
            q
        } else {
            q - 1
        };
        if p != at && q != at {
            assert(after[p] == before[bp] && after[q] == before[bq]);
        } else if q == at {
            assert(after[p] == before[p]);
            assert(before[p] < i);
            if p < at - 1 {
                assert(comes_first(v, before[p] as int, before[at - 1] as int));
            }
        } else {
            assert(after[q] == before[q - 1]);
        }
    }
    assert forall|p: int| 0 <= p < after.len() implies 0 <= #[trigger] after[p] < i + 1 && is_real(
        v[after[p] as int],
    ) by {
        if p < at {
            assert(after[p] == before[p]);
        } else if p > at {
            assert(after[p] == before[p - 1]);
        }
    }
    assert forall|k: int| 0 <= k < i + 1 && is_real(#[trigger] v[k]) implies after.contains(
        k as usize,
    ) by {
        if k == i {
            assert(after[at] == k as usize);
        } else {
            assert(before.contains(k as usize));
            let p = choose|p: int| 0 <= p < before.len() && before[p] == k as usize;
            if p < at {
                assert(after[p] == k as usize);
            } else {
                assert(after[p + 1] == k as usize);
            }
        }
    }
}

/// The partition at place `p` of the order ends before the next begins.
pub open spec fn ends_before_next(v: Seq<PartView>, order: Seq<usize>, p: int) -> bool {
    v[order[p] as int].start_lba + v[order[p] as int].size_sectors <= v[order[p + 1] as int].start_lba
}

/// Refuses tables in which two partitions that hold data claim the same sector.
pub fn check_overlaps(parts: &[PartitionInfo]) -> (r: Result<(), &'static str>)
    ensures
        match r {
            Ok(_) => disjoint_parts(part_views(parts@)),
            Err(e) => !disjoint_parts(part_views(parts@)) && overlap_reason(
                part_views(parts@),
                e@,
            ),
        },
{
    let ghost v = part_views(parts@);
    let order: Vec<usize> = order_by_start(parts);
    let mut w: usize = 0;
    while w < order.len() && w < order.len() - 1
        invariant
            w <= order@.len(),
            order@.len() == order.len(),
            v == part_views(parts@),
            is_order(v, order@, parts@.len() as int),
            forall|p: int| 0 <= p < w ==> #[trigger] ends_before_next(v, order@, p),
        decreases order@.len() - w,
    {
        let a: usize = order[w];
        let b: usize = order[w + 1];
        assert(comes_first(v, order@[w as int] as int, order@[w + 1] as int));
        assert(v[a as int] == parts@[a as int]@ && v[b as int] == parts@[b as int]@);
        assert(is_real(v[order@[w as int] as int]) && is_real(v[order@[w + 1] as int]));
        match parts[a].start_lba.checked_add(parts[a].size_sectors) {
            Some(a_end) => {
                if parts[b].start_lba < a_end {
                    return Err("overlapping partitions");
                }
            },
            None => return Err("partition range overflow"),
        }
        assert(ends_before_next(v, order@, w as int));
        w = w + 1;
    }
    proof {
        assert forall|i: int, j: int|
            0 <= i < v.len() && 0 <= j < v.len() && i != j && is_real(#[trigger] v[i]) && is_real(
                #[trigger] v[j],
            ) && comes_first(v, i, j) implies v[i].start_lba + v[i].size_sectors
            <= v[j].start_lba by {
            assert(parts@.len() == parts.len());
            assert(order@.contains(i as usize) && order@.contains(j as usize));
            let p = choose|p: int| 0 <= p < order@.len() && order@[p] == i as usize;
            let q = choose|q: int| 0 <= q < order@.len() && order@[q] == j as usize;
            if q < p {
                assert(comes_first(v, order@[q] as int, order@[p] as int));
            }
            assert(p < q);
            if p + 1 < q {
                assert(comes_first(v, order@[p + 1] as int, order@[q] as int));
            }
            assert(ends_before_next(v, order@, p));
        }
    }
    Ok(())
}

/// The boot record `s` names a GUID partition table in one of its four entries.
pub open spec fn is_protective(s: Seq<u8>) -> bool {
    mbr::entry_type(s, 0x1BE) == 0xEE || mbr::entry_type(s, 0x1CE) == 0xEE || mbr::entry_type(
        s,
        0x1DE,
    ) == 0xEE || mbr::entry_type(s, 0x1EE) == 0xEE
}

/// Whether a boot record names a GUID partition table.
pub fn read_boot_record(sector: &Vec<u8>) -> (r: Result<bool, &'static str>)
    requires
        sector@.len() == 512,
    ensures
        match r {
            Ok(p) => sector@[510] == 0x55 && sector@[511] == 0xAA && p == is_protective(sector@),
            Err(e) => !(sector@[510] == 0x55 && sector@[511] == 0xAA) && e@
                == "no valid MBR or GPT signature"@,
        },
{
    if sector[510] != 0x55 || sector[511] != 0xAA {
        return Err("no valid MBR or GPT signature");
    }
    Ok(
        sector[0x1BE + 4] == 0xEE || sector[0x1CE + 4] == 0xEE || sector[0x1DE + 4] == 0xEE
            || sector[0x1EE + 4] == 0xEE,
    )
}

/// What the partitions of a boot record come to; `gpt_err` is why the GUID partition
/// table that the record names cannot be used, if it names one.
pub fn settle_mbr(parsed: Result<Vec<PartitionInfo>, &'static str>, gpt_err: Option<&'static str>)
    -> (r: Result<PartitionTable, &'static str>)
    ensures
        match parsed {
            Ok(v) => match r {
                Ok(t) => t == PartitionTable::Mbr(v) && disjoint_parts(part_views(v@)),
                Err(e) => !disjoint_parts(part_views(v@)) && overlap_reason(part_views(v@), e@),
            },
            Err(e) => r == Err::<PartitionTable, &'static str>(
                match gpt_err {
                    Some(g) => g,
                    None => e,
                },
            ),
        },
{
    let parts: Vec<PartitionInfo> = match parsed {
        Ok(p) => p,
        Err(e) => {
            return Err(
                match gpt_err {
                    Some(g) => g,
                    None => e,
                },
            );
        },
    };
    match check_overlaps(parts.as_slice()) {
        Ok(_) => Ok(PartitionTable::Mbr(parts)),
        Err(e) => Err(e),
    }
}

/// What the partitions of a GUID partition table come to.
pub fn settle_gpt(parts: Vec<PartitionInfo>) -> (r: Result<PartitionTable, &'static str>)
    ensures
        match r {
            Ok(t) => t == PartitionTable::Gpt(parts) && disjoint_parts(part_views(parts@)),
            Err(e) => !disjoint_parts(part_views(parts@)) && overlap_reason(
                part_views(parts@),
                e@,
            ),
        },
{
    match check_overlaps(parts.as_slice()) {
        Ok(_) => Ok(PartitionTable::Gpt(parts)),
        Err(e) => Err(e),
    }
}

/// `r` is what `parts`, of a GUID partition table or of a boot record, come to: a table of
/// them, or an error where they overlap.
pub open spec fn settled(
    r: Result<PartitionTable, &'static str>,
    parts: Seq<PartView>,
    guid: bool,
) -> bool {
    match r {
        Ok(PartitionTable::Gpt(v)) => guid && part_views(v@) == parts && disjoint_parts(parts),
        Ok(PartitionTable::Mbr(v)) => !guid && part_views(v@) == parts && disjoint_parts(parts),
        Err(e) => !disjoint_parts(parts) && overlap_reason(parts, e@),
    }
}

/// `r` is what a device with the boot record `s` comes to, where `g` became of its GUID
/// partition table, if the record names one, and `m` of the record itself.
pub open spec fn found(
    s: Seq<u8>,
    g: Result<Seq<PartView>, Seq<char>>,
    m: Result<Seq<PartView>, Seq<char>>,
    r: Result<PartitionTable, &'static str>,
) -> bool {
    if s[510] != 0x55 || s[511] != 0xAA {
        r matches Err(e) && e@ == "no valid MBR or GPT signature"@
    } else {
        match (is_protective(s), g, m) {
            (true, Ok(parts), _) => settled(r, parts, true),
            (_, _, Ok(parts)) => settled(r, parts, false),
            (true, Err(why), Err(_)) => r matches Err(e) && e@ == why,
            (false, _, Err(why)) => r matches Err(e) && e@ == why,
        }
    }
}

/// Finds the partitions of a device: by its GUID partition table, where the boot record
/// names one that can be used, and by the boot record otherwise.
pub fn probe<D: BlockDevice>(device: &mut D) -> (r: Result<PartitionTable, &'static str>)
    requires
        old(device).sector_len() == SECTOR_SIZE,
    ensures
        io::same_device(*final(device), *old(device)),
        final(device).disk() == old(device).disk(),
        ({
            let d = old(device).disk();
            let s = io::disk_range(d, 0, 512);
            let n = old(device).sectors() as int;
            let before = old(device).answers();
            let after = final(device).answers();
            let first = after.take(before.len() as int + 1);
            &&& traits::continues(before, after)
            &&& before.len() < after.len()
            &&& traits::none_failed(before, after) ==> found(
                s,
                gpt::gpt_table(d),
                mbr::mbr_partitions(d, n, s),
                r,
            )
            &&& if traits::carried_out(first.last()) {
                exists|mid: Seq<traits::Answer>|
                    {
                        &&& traits::continues(first, mid)
                        &&& #[trigger] traits::continues(mid, after)
                        &&& found(
                            s,
                            gpt::gpt_outcome(d, first, mid),
                            mbr::mbr_outcome(d, n, s, mid, after),
                            r,
                        )
                    }
            } else {
                r matches Err(e) && e@ == reason(first.last(), "sector read error"@)
            }
        }),
        ({
            let d = old(device).disk();
            let s = io::disk_range(d, 0, 512);
            let n = old(device).sectors() as int;
            match r {
                Ok(PartitionTable::Gpt(v)) => {
                    &&& s[510] == 0x55 && s[511] == 0xAA
                    &&& is_protective(s)
                    &&& gpt::gpt_partitions(d) == Ok::<Seq<PartView>, Seq<char>>(part_views(v@))
                    &&& disjoint_parts(part_views(v@))
                },
                Ok(PartitionTable::Mbr(v)) => {
                    &&& s[510] == 0x55 && s[511] == 0xAA
                    &&& mbr::mbr_partitions(d, n, s) == Ok::<Seq<PartView>, Seq<char>>(
                        part_views(v@),
                    )
                    &&& disjoint_parts(part_views(v@))
                },
                Err(_) => true,
            }
        }),
{
    let sector: Vec<u8> = match read_sector(device, 0) {
        Ok(v) => v,
        Err(e) => return Err(e),
    };
    let ghost before = old(device).answers();
    let ghost first = device.answers();
    let ghost mut mid = first;
    let protective = match read_boot_record(&sector) {
        Ok(p) => p,
        Err(e) => {
            assert(first.take(before.len() as int + 1) =~= first);
            assert(traits::continues(first, first));
            return Err(e);
        },
    };
    let r = if protective {
        let parsed = gpt::parse(device);
        proof {
            mid = device.answers();
        }
        match parsed {
            Ok(parts) => settle_gpt(parts),
            Err(gpt_err) => settle_mbr(mbr::parse(device, sector.as_slice()), Some(gpt_err)),
        }
    } else {
        settle_mbr(mbr::parse(device, sector.as_slice()), None)
    };
    proof {
        let after = device.answers();
        assert(first.take(before.len() as int + 1) =~= first);
        assert(after.take(before.len() as int + 1) =~= first);
        assert(traits::continues(first, mid) && traits::continues(mid, after));
        traits::lemma_none_failed_parts(before, first, after);
        traits::lemma_none_failed_parts(first, mid, after);
    }
    r
}

} // verus!
