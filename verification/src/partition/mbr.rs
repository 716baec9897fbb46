//! Partition tables in the master boot record, and the chain of extended ones.

use vstd::prelude::*;

use crate::blockdriver::traits;
use crate::blockdriver::traits::BlockDevice;
use crate::bytes;
use crate::bytes::read_le_u32;
use crate::fat32::io;
use crate::fat32::io::SECTOR_SIZE;
use crate::partition;
use crate::partition::{read_sector, PartView, PartitionInfo, MAX_EBR_CHAIN};

verus! {

/// What a table of four entries comes to: the partitions, and the extended one as its
/// first sector and the one after its last; or why the table is refused.
pub type Primary = Result<(Seq<PartView>, Option<(int, int)>), Seq<char>>;

/// The type in the entry at `off`.
pub open spec fn entry_type(s: Seq<u8>, off: int) -> u8 {
    s[off + 4]
}

/// The first sector in the entry at `off`.
pub open spec fn entry_start(s: Seq<u8>, off: int) -> int {
    bytes::le32(s, off + 8)
}

/// The number of sectors in the entry at `off`.
pub open spec fn entry_count(s: Seq<u8>, off: int) -> int {
    bytes::le32(s, off + 12)
}

/// The type is one of an extended partition.
pub open spec fn is_extended_type(t: u8) -> bool {
    t == 0x05 || t == 0x0F
}

/// A partition of a master boot record.
pub open spec fn mbr_part(number: int, start: int, count: int, typ: u8, extended: bool) -> PartView {
    PartView {
        number: number as u32,
        start_lba: start as u64,
        end_lba: (start + count - 1) as u64,
        size_sectors: count as u64,
        partition_type: Some(typ),
        guid_type: None,
        guid_unique: None,
        name: None,
        is_extended: extended,
    }
}

/// The partitions of the first `n` entries of the table in `s`. Unused entries, those
/// that stand for a GUID partition table, and empty ones are passed over; the last
/// extended one counts.
pub open spec fn primary_upto(s: Seq<u8>, dev_sectors: int, n: int) -> Primary
    decreases n,
{
    if n <= 0 {
        Ok((Seq::empty(), None))
    } else {
        match primary_upto(s, dev_sectors, n - 1) {
            Err(e) => Err(e),
            Ok((parts, ext)) => {
                let off = 0x1BE + (n - 1) * 16;
                let t = entry_type(s, off);
                let start = entry_start(s, off);
                let count = entry_count(s, off);
                if t == 0 || t == 0xEE || count == 0 {
                    Ok((parts, ext))
                } else if start + count > dev_sectors {
                    Err("partition extends beyond device"@)
                } else {
                    let x = is_extended_type(t);
                    Ok(
                        (
                            parts.push(mbr_part(n, start, count, t, x)),
                            if x {
                                Some((start, start + count))
                            } else {
                                ext
                            },
                        ),
                    )
                }
            },
        }
    }
}

/// The logical partitions on the device `d`, from the extended boot record in sector `lba`
/// on and behind those in `out`, where `num` is the next number and `seen` records were
/// followed.
pub open spec fn logical_from(
    d: spec_fn(int) -> u8,
    dev_sectors: int,
    base: int,
    limit: int,
    lba: int,
    num: int,
    seen: int,
    out: Seq<PartView>,
) -> Result<Seq<PartView>, Seq<char>>
    decreases MAX_EBR_CHAIN - seen,
{
    let e = io::disk_range(d, lba * 512, 512);
    let start = lba + entry_start(e, 0x1BE);
    let count = entry_count(e, 0x1BE);
    let has = entry_type(e, 0x1BE) != 0 && count > 0;
    let more = if has {
        out.push(mbr_part(num, start, count, entry_type(e, 0x1BE), false))
    } else {
        out
    };
    let next = entry_start(e, 0x1CE);
    if seen >= MAX_EBR_CHAIN || e[510] != 0x55 || e[511] != 0xAA {
        Ok(out)
    } else if has && start + count > dev_sectors {
        Err("logical partition extends beyond device"@)
    } else if has && start + count > limit {
        Err("logical partition outside extended extent"@)
    } else if entry_type(e, 0x1CE) == 0 || next == 0 {
        Ok(more)
    } else {
        logical_from(
            d,
            dev_sectors,
            base,
            limit,
            base + next,
            if has {
                num + 1
            } else {
                num
            },
            seen + 1,
            more,
        )
    }
}

/// The partitions that the boot record `s` on the device `d` leads to.
pub open spec fn mbr_partitions(d: spec_fn(int) -> u8, dev_sectors: int, s: Seq<u8>) -> Result<
    Seq<PartView>,
    Seq<char>,
> {
    match primary_upto(s, dev_sectors, 4) {
        Err(e) => Err(e),
        Ok((parts, None)) => Ok(parts),
        Ok((parts, Some((base, end)))) => logical_from(d, dev_sectors, base, end, base, 5, 0, parts),
    }
}

/// The partitions of the four entries of a boot record, and the extended one as its first
/// sector and the one after its last.
pub fn parse_primary(mbr_sector: &[u8], dev_sectors: u64) -> (r: Result<
    (Vec<PartitionInfo>, Option<(u64, u64)>),
    &'static str,
>)
    requires
        mbr_sector@.len() == 512,
    ensures
        match r {
            Ok((v, ext)) => primary_upto(mbr_sector@, dev_sectors as int, 4) == Ok::<
                (Seq<PartView>, Option<(int, int)>),
                Seq<char>,
            >(
                (
                    partition::part_views(v@),
                    match ext {
                        Some((a, b)) => Some((a as int, b as int)),
                        None => None,
                    },
                ),
            ) && (ext matches Some((a, b)) ==> a < 0x1_0000_0000 && b < 0x2_0000_0000),
            Err(e) => primary_upto(mbr_sector@, dev_sectors as int, 4) == Err::<
                (Seq<PartView>, Option<(int, int)>),
                Seq<char>,
            >(e@),
        },
{
    let ghost s = mbr_sector@;
    let mut partitions: Vec<PartitionInfo> = Vec::new();
    let mut ext: Option<(u64, u64)> = None;
    let mut i: usize = 0;
    assert(partition::part_views(partitions@) =~= Seq::<PartView>::empty());
    while i < 4
        invariant
            i <= 4,
            s == mbr_sector@,
            s.len() == 512,
            primary_upto(s, dev_sectors as int, i as int) == Ok::<
                (Seq<PartView>, Option<(int, int)>),
                Seq<char>,
            >(
                (
                    partition::part_views(partitions@),
                    match ext {
                        Some((a, b)) => Some((a as int, b as int)),
                        None => None,
                    },
                ),
            ),
            ext matches Some((a, b)) ==> a < 0x1_0000_0000 && b < 0x2_0000_0000,
        decreases 4 - i,
    {
        let off: usize = 0x1BE + i * 16;
        let typ: u8 = mbr_sector[off + 4];
        let start_lba: u64 = read_le_u32(mbr_sector, off + 8) as u64;
        let sector_count: u64 = read_le_u32(mbr_sector, off + 12) as u64;
        let ghost k = i as int;
        assert(primary_upto(s, dev_sectors as int, k + 1) == {
            let t = entry_type(s, off as int);
            if t == 0 || t == 0xEE || sector_count == 0 {
                primary_upto(s, dev_sectors as int, k)
            } else if start_lba + sector_count > dev_sectors {
                Err("partition extends beyond device"@)
            } else {
                let x = is_extended_type(t);
                Ok(
                    (
                        partition::part_views(partitions@).push(
                            mbr_part(k + 1, start_lba as int, sector_count as int, t, x),
                        ),
                        if x {
                            Some((start_lba as int, start_lba + sector_count))
                        } else {
                            match ext {
                                Some((a, b)) => Some((a as int, b as int)),
                                None => None,
                            }
                        },
                    ),
                )
            }
        });
        if !(typ == 0 || typ == 0xEE || sector_count == 0) {
            let end_excl: u64 = start_lba + sector_count;
            if end_excl > dev_sectors {
                proof {
                    lemma_primary_err(s, dev_sectors as int, k + 1);
                }
                return Err("partition extends beyond device");
            }
            let is_ext = typ == 0x05 || typ == 0x0F;
            let ghost before = partitions@;
            partitions.push(
                PartitionInfo {
                    number: i as u32 + 1,
                    start_lba,
                    end_lba: end_excl - 1,
                    size_sectors: sector_count,
                    partition_type: Some(typ),
                    guid_type: None,
                    guid_unique: None,
                    name: None,
                    is_extended: is_ext,
                },
            );
            assert(partition::part_views(partitions@) =~= partition::part_views(before).push(
                mbr_part(k + 1, start_lba as int, sector_count as int, typ, is_ext),
            ));
            if is_ext {
                ext = Some((start_lba, end_excl));
            }
        }
        i = i + 1;
    }
    Ok((partitions, ext))
}

/// A table that is refused for its first entries is refused.
proof fn lemma_primary_err(s: Seq<u8>, dev_sectors: int, n: int)
    requires
        n <= 4,
        primary_upto(s, dev_sectors, n) is Err,
    ensures
        primary_upto(s, dev_sectors, 4) == primary_upto(s, dev_sectors, n),
    decreases 4 - n,
{
    if n < 4 {
        lemma_primary_err(s, dev_sectors, n + 1);
    }
}

/// What becomes of the boot record `s` on the device `d`, whose answers were `before` and
/// then `after`: a read that fails is the last one.
pub open spec fn mbr_outcome(
    d: spec_fn(int) -> u8,
    dev_sectors: int,
    s: Seq<u8>,
    before: Seq<traits::Answer>,
    after: Seq<traits::Answer>,
) -> Result<Seq<PartView>, Seq<char>> {
    if traits::none_failed(before, after) {
        mbr_partitions(d, dev_sectors, s)
    } else {
        Err(partition::reason(after.last(), "sector read error"@))
    }
}

/// The partitions of a boot record and of the extended ones that follow it. Reads of the
/// device may fail; where none does, the result is what the device holds.
pub fn parse<D: BlockDevice>(device: &mut D, mbr_sector: &[u8]) -> (r: Result<
    Vec<PartitionInfo>,
    &'static str,
>)
    requires
        old(device).sector_len() == SECTOR_SIZE,
        mbr_sector@.len() == 512,
    ensures
        io::same_device(*final(device), *old(device)),
        final(device).disk() == old(device).disk(),
        traits::continues(old(device).answers(), final(device).answers()),
        mbr_outcome(
            old(device).disk(),
            old(device).sectors() as int,
            mbr_sector@,
            old(device).answers(),
            final(device).answers(),
        ) == partition::outcome(r),
        match r {
            Ok(v) => mbr_partitions(
                old(device).disk(),
                old(device).sectors() as int,
                mbr_sector@,
            ) == Ok::<Seq<PartView>, Seq<char>>(partition::part_views(v@)),
            Err(e) => match primary_upto(mbr_sector@, old(device).sectors() as int, 4) {
                Ok((parts, ext)) => ext is Some,
                Err(m) => e@ == m,
            },
        },
{
    let dev_sectors: u64 = device.sector_count();
    let (primary, ext): (Vec<PartitionInfo>, Option<(u64, u64)>) = match parse_primary(
        mbr_sector,
        dev_sectors,
    ) {
        Ok(p) => p,
        Err(e) => return Err(e),
    };
    let (base, limit): (u64, u64) = match ext {
        Some(x) => x,
        None => return Ok(primary),
    };
    let mut partitions: Vec<PartitionInfo> = primary;
    let ghost d = device.disk();
    let ghost n = dev_sectors as int;
    let ghost whole = mbr_partitions(d, n, mbr_sector@);
    let mut lba: u64 = base;
    let mut num: u32 = 5;
    let mut seen: u32 = 0;
    while seen < MAX_EBR_CHAIN
        invariant
            seen <= MAX_EBR_CHAIN,
            num <= 5 + seen,
            base < 0x1_0000_0000,
            lba < 0x2_0000_0000,
            io::same_device(*device, *old(device)),
            traits::none_failed(old(device).answers(), device.answers()),
            old(device).sector_len() == SECTOR_SIZE,
            dev_sectors == old(device).sectors(),
            device.disk() == old(device).disk(),
            d == old(device).disk(),
            n == dev_sectors,
            whole == mbr_partitions(d, n, mbr_sector@),
            primary_upto(mbr_sector@, n, 4) matches Ok((parts, ext)) && ext is Some,
            whole == logical_from(
                d,
                n,
                base as int,
                limit as int,
                lba as int,
                num as int,
                seen as int,
                partition::part_views(partitions@),
            ),
        decreases MAX_EBR_CHAIN - seen,
    {
        let ebr: Vec<u8> = match read_sector(device, lba) {
            Ok(v) => v,
            Err(e) => return Err(e),
        };
        if ebr[510] != 0x55 || ebr[511] != 0xAA {
            return Ok(partitions);
        }
        let typ0: u8 = ebr[0x1BE + 4];
        let rel_start: u64 = read_le_u32(ebr.as_slice(), 0x1BE + 8) as u64;
        let sector_count: u64 = read_le_u32(ebr.as_slice(), 0x1BE + 12) as u64;
        if typ0 != 0 && sector_count > 0 {
            let abs_lba: u64 = lba + rel_start;
            let end_excl: u64 = abs_lba + sector_count;
            if end_excl > dev_sectors {
                return Err("logical partition extends beyond device");
            }
            if end_excl > limit {
                return Err("logical partition outside extended extent");
            }
            let ghost before = partitions@;
            let ghost was = num as int;
            partitions.push(
                PartitionInfo {
                    number: num,
                    start_lba: abs_lba,
                    end_lba: end_excl - 1,
                    size_sectors: sector_count,
                    partition_type: Some(typ0),
                    guid_type: None,
                    guid_unique: None,
                    name: None,
                    is_extended: false,
                },
            );
            assert(partition::part_views(partitions@) =~= partition::part_views(before).push(
                mbr_part(was, abs_lba as int, sector_count as int, typ0, false),
            ));
            num = num + 1;
        }
        let typ1: u8 = ebr[0x1CE + 4];
        let next_rel: u64 = read_le_u32(ebr.as_slice(), 0x1CE + 8) as u64;
        if typ1 == 0 || next_rel == 0 {
            return Ok(partitions);
        }
        lba = base + next_rel;
        seen = seen + 1;
    }
    Ok(partitions)
}

} // verus!
