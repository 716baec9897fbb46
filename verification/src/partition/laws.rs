//! What holds of partition tables, stated of the bytes of a disk.

use vstd::arithmetic::power::pow;
use vstd::prelude::*;

use crate::fat32::io;
use crate::layout;
use crate::layout::{holds_low_first, low_first};
use crate::blockdriver::traits::{BlockDevice, IoRequest};
use crate::partition;
use crate::partition::attempt;
use crate::partition::device;
use crate::partition::device::PartitionDevice;
use crate::partition::gpt;
use crate::partition::gpt::GptHeader;
use crate::partition::mbr;
use crate::partition::{PartView, PartitionInfo, MAX_EBR_CHAIN};

verus! {

/// A partition as an entry of a boot record gives it: where it starts, how many sectors it
/// has, and its type.
pub struct Entry {
    pub start: int,
    pub count: int,
    pub typ: u8,
}

/// The entry at `off` of the sector `s` is `e`.
pub open spec fn has_entry(s: Seq<u8>, off: int, e: Entry) -> bool {
    &&& s[off + 4] == e.typ
    &&& holds_low_first(s, off + 8, 4, e.start)
    &&& holds_low_first(s, off + 12, 4, e.count)
}

proof fn lemma_entry(s: Seq<u8>, off: int, e: Entry)
    requires
        has_entry(s, off, e),
    ensures
        mbr::entry_start(s, off) == e.start,
        mbr::entry_count(s, off) == e.count,
        mbr::entry_type(s, off) == e.typ,
{
    layout::lemma_read_back(s, off + 8, e.start);
    layout::lemma_read_back(s, off + 12, e.count);
}

/// Sector `lba` of the device `d`.
pub open spec fn sector(d: spec_fn(int) -> u8, lba: int) -> Seq<u8> {
    Seq::new(512, |i: int| d(lba * 512 + i))
}

/// The extended boot records in the sectors `at`: the first is in sector `base`, each is
/// signed and has the partition in `logical` as its first entry and a link to the next as
/// its second, which counts from `base`; the last has no link. The type of a link is any but
/// zero, as is that of a partition, which may be missing.
pub open spec fn is_chain(
    d: spec_fn(int) -> u8,
    base: int,
    at: Seq<int>,
    logical: Seq<Entry>,
) -> bool {
    &&& at.len() == logical.len()
    &&& at.len() > 0
    &&& at[0] == base
    &&& forall|k: int| #![trigger at[k]]
        0 <= k < at.len() ==> {
            let s = sector(d, at[k]);
            &&& s[510] == 0x55
            &&& s[511] == 0xAA
            &&& has_entry(s, 0x1BE, logical[k])
        }
    &&& forall|k: int| #![trigger at[k]]
        0 <= k < at.len() - 1 ==> at[k + 1] != base && sector(d, at[k])[0x1D2] != 0
            && holds_low_first(sector(d, at[k]), 0x1D6, 4, at[k + 1] - base)
    &&& sector(d, at.last())[0x1D2] == 0
}

/// The record has a partition.
pub open spec fn is_there(e: Entry) -> bool {
    e.typ != 0 && e.count > 0
}

/// The partitions in `logical` from record `k` on, each counted from the record that holds
/// it, with numbers from `num` on.
pub open spec fn logical_parts(at: Seq<int>, logical: Seq<Entry>, k: int, num: int) -> Seq<PartView>
    decreases at.len() - k,
{
    if k >= at.len() {
        Seq::empty()
    } else if !is_there(logical[k]) {
        logical_parts(at, logical, k + 1, num)
    } else {
        seq![
            PartView {
                number: num as u32,
                start_lba: (at[k] + logical[k].start) as u64,
                end_lba: (at[k] + logical[k].start + logical[k].count - 1) as u64,
                size_sectors: logical[k].count as u64,
                partition_type: Some(logical[k].typ),
                guid_type: None,
                guid_unique: None,
                name: None,
                is_extended: false,
            },
        ] + logical_parts(at, logical, k + 1, num + 1)
    }
}

/// Following a chain of extended boot records from record `k` on gives its partitions.
pub proof fn law_chain_is_followed_from(
    d: spec_fn(int) -> u8,
    dev_sectors: int,
    base: int,
    limit: int,
    at: Seq<int>,
    logical: Seq<Entry>,
    k: int,
    num: int,
    out: Seq<PartView>,
)
    requires
        is_chain(d, base, at, logical),
        at.len() <= MAX_EBR_CHAIN,
        0 <= k < at.len(),
        forall|i: int| #![trigger logical[i]]
            k <= i < at.len() && is_there(logical[i]) ==> at[i] + logical[i].start
                + logical[i].count <= limit && at[i] + logical[i].start + logical[i].count
                <= dev_sectors,
    ensures
        mbr::logical_from(d, dev_sectors, base, limit, at[k], num, k, out) == Ok::<
            Seq<PartView>,
            Seq<char>,
        >(out + logical_parts(at, logical, k, num)),
    decreases at.len() - k,
{
    let e = io::disk_range(d, at[k] * 512, 512);
    let s = sector(d, at[k]);
    assert(e =~= s);
    let l = logical[k];
    lemma_entry(s, 0x1BE, l);
    assert(s[510] == 0x55);
    let has = is_there(l);
    let more = if has {
        out.push(mbr::mbr_part(num, at[k] + l.start, l.count, l.typ, false))
    } else {
        out
    };
    assert(logical_parts(at, logical, at.len() as int, num + 1) =~= Seq::empty());
    assert(logical_parts(at, logical, at.len() as int, num) =~= Seq::empty());
    let next_num = if has {
        num + 1
    } else {
        num
    };
    if k + 1 < at.len() {
        layout::lemma_read_back(s, 0x1D6, at[k + 1] - base);
        assert(mbr::entry_start(s, 0x1CE) == at[k + 1] - base);
        assert(mbr::entry_type(s, 0x1CE) != 0);
        law_chain_is_followed_from(
            d,
            dev_sectors,
            base,
            limit,
            at,
            logical,
            k + 1,
            next_num,
            more,
        );
    } else {
        assert(at.last() == at[k]);
        assert(mbr::entry_type(s, 0x1CE) == 0);
        assert(k + 1 == at.len());
    }
    assert(more + logical_parts(at, logical, k + 1, next_num) =~= out + logical_parts(
        at,
        logical,
        k,
        num,
    ));
}

/// A chain of extended boot records of any length gives the partition of each record: the
/// links count from the first sector of the extended partition, and each partition from the
/// record that holds it.
pub proof fn law_chain_is_followed(
    d: spec_fn(int) -> u8,
    dev_sectors: int,
    s: Seq<u8>,
    primary: Seq<PartView>,
    base: int,
    limit: int,
    at: Seq<int>,
    logical: Seq<Entry>,
)
    requires
        mbr::primary_upto(s, dev_sectors, 4) == Ok::<
            (Seq<PartView>, Option<(int, int)>),
            Seq<char>,
        >((primary, Some((base, limit)))),
        is_chain(d, base, at, logical),
        at.len() <= MAX_EBR_CHAIN,
        forall|i: int| #![trigger logical[i]]
            0 <= i < at.len() && is_there(logical[i]) ==> at[i] + logical[i].start
                + logical[i].count <= limit && at[i] + logical[i].start + logical[i].count
                <= dev_sectors,
    ensures
        mbr::mbr_partitions(d, dev_sectors, s) == Ok::<Seq<PartView>, Seq<char>>(
            primary + logical_parts(at, logical, 0, 5),
        ),
{
    law_chain_is_followed_from(d, dev_sectors, base, limit, at, logical, 0, 5, primary);
}

/// A partition ends with its last sector.
pub open spec fn adds_up(p: PartView) -> bool {
    p.size_sectors > 0 && p.end_lba - p.start_lba + 1 == p.size_sectors
}

/// Logical partitions lie in the extended partition and on the device, are numbered from
/// `num` on, and come behind the others.
pub proof fn law_logical_partitions_lie_inside(
    d: spec_fn(int) -> u8,
    dev_sectors: int,
    base: int,
    limit: int,
    lba: int,
    num: int,
    seen: int,
    out: Seq<PartView>,
)
    requires
        0 <= base < 0x1_0000_0000,
        0 <= lba < 0x2_0000_0000,
        0 <= seen,
        0 <= num <= 5 + seen,
        mbr::logical_from(d, dev_sectors, base, limit, lba, num, seen, out) is Ok,
    ensures
        ({
            let v = mbr::logical_from(d, dev_sectors, base, limit, lba, num, seen, out)->Ok_0;
            &&& v.len() >= out.len()
            &&& v.take(out.len() as int) == out
            &&& forall|i: int| #![trigger v[i]]
                out.len() <= i < v.len() ==> {
                    &&& v[i].number == num + (i - out.len())
                    &&& adds_up(v[i])
                    &&& v[i].end_lba < limit
                    &&& v[i].end_lba < dev_sectors
                    &&& !v[i].is_extended
                    &&& v[i].partition_type is Some
                }
        }),
    decreases MAX_EBR_CHAIN - seen,
{
    let e = io::disk_range(d, lba * 512, 512);
    let start = lba + mbr::entry_start(e, 0x1BE);
    let count = mbr::entry_count(e, 0x1BE);
    let next = mbr::entry_start(e, 0x1CE);
    let has = mbr::entry_type(e, 0x1BE) != 0 && count > 0;
    let more = if has {
        out.push(mbr::mbr_part(num, start, count, mbr::entry_type(e, 0x1BE), false))
    } else {
        out
    };
    let v = mbr::logical_from(d, dev_sectors, base, limit, lba, num, seen, out)->Ok_0;
    assert(out.take(out.len() as int) =~= out);
    assert(more.take(out.len() as int) =~= out);
    if seen < MAX_EBR_CHAIN && e[510] == 0x55 && e[511] == 0xAA && mbr::entry_type(e, 0x1CE) != 0
        && next != 0 {
        let n = if has {
            num + 1
        } else {
            num
        };
        law_logical_partitions_lie_inside(
            d,
            dev_sectors,
            base,
            limit,
            base + next,
            n,
            seen + 1,
            more,
        );
        assert(v.take(out.len() as int) =~= v.take(more.len() as int).take(out.len() as int));
        if has {
            assert(v.take(more.len() as int)[out.len() as int] == more[out.len() as int]);
        }
    }
}

/// Entry `k` of the table in a boot record, counted from one, is used.
pub open spec fn is_used(e: Entry) -> bool {
    e.typ != 0 && e.typ != 0xEE && e.count != 0
}

/// `p` is the partition that entry `k`, counted from one, gives.
pub open spec fn is_primary(p: PartView, k: int, e: Entry) -> bool {
    &&& p.number == k
    &&& p.start_lba == e.start
    &&& p.size_sectors == e.count
    &&& adds_up(p)
    &&& p.partition_type == Some(e.typ)
    &&& p.is_extended == (e.typ == 5 || e.typ == 15)
    &&& p.guid_type is None
    &&& p.guid_unique is None
    &&& p.name is None
}

/// The first `n` entries of the table in the boot record `s`, which are `table`, give a
/// partition for each that is used, in order; the table is refused exactly where one of them
/// ends beyond the device. The extended partition is the last entry of such a type.
pub proof fn law_primary_partitions(s: Seq<u8>, dev_sectors: int, table: Seq<Entry>, n: int)
    requires
        0 <= n <= 4,
        table.len() == 4,
        forall|k: int| #![trigger table[k]] 0 <= k < 4 ==> has_entry(s, 446 + 16 * k, table[k]),
    ensures
        match mbr::primary_upto(s, dev_sectors, n) {
            Ok((v, ext)) => {
                &&& forall|k: int| #![trigger table[k]]
                    0 <= k < n && is_used(table[k]) ==> table[k].start + table[k].count
                        <= dev_sectors && exists|i: int|
                        0 <= i < v.len() && is_primary(#[trigger] v[i], k + 1, table[k])
                &&& forall|i: int| #![trigger v[i]]
                    0 <= i < v.len() ==> 1 <= v[i].number <= n && is_used(
                        table[v[i].number - 1],
                    ) && is_primary(v[i], v[i].number as int, table[v[i].number - 1])
                &&& forall|i: int, j: int|
                    #![trigger v[i], v[j]]
                    0 <= i < j < v.len() ==> v[i].number < v[j].number
                &&& match ext {
                    None => forall|i: int| 0 <= i < v.len() ==> !(#[trigger] v[i]).is_extended,
                    Some((a, b)) => exists|i: int|
                        {
                            &&& 0 <= i < v.len()
                            &&& (#[trigger] v[i]).is_extended
                            &&& v[i].start_lba == a
                            &&& v[i].end_lba + 1 == b
                            &&& forall|j: int|
                                i < j < v.len() ==> !(#[trigger] v[j]).is_extended
                        },
                }
            },
            Err(_) => exists|k: int|
                0 <= k < n && is_used(#[trigger] table[k]) && table[k].start + table[k].count
                    > dev_sectors,
        },
    decreases n,
{
    if n > 0 {
        law_primary_partitions(s, dev_sectors, table, n - 1);
        let e = table[n - 1];
        lemma_entry(s, 446 + 16 * (n - 1), e);
        layout::lemma_powers();
        match mbr::primary_upto(s, dev_sectors, n - 1) {
            Ok((v, ext)) => {
                if is_used(e) && e.start + e.count <= dev_sectors {
                    let p = mbr::mbr_part(n, e.start, e.count, e.typ, mbr::is_extended_type(e.typ));
                    let w = v.push(p);
                    assert(is_primary(p, n, e));
                    assert(w[v.len() as int] == p);
                    assert forall|k: int| #![trigger table[k]]
                        0 <= k < n && is_used(table[k]) implies exists|i: int|
                        0 <= i < w.len() && is_primary(#[trigger] w[i], k + 1, table[k]) by {
                        if k < n - 1 {
                            let i = choose|i: int|
                                0 <= i < v.len() && is_primary(#[trigger] v[i], k + 1, table[k]);
                            assert(w[i] == v[i]);
                        }
                    }
                    if !p.is_extended {
                        match ext {
                            Some((a, b)) => {
                                let i = choose|i: int|
                                    {
                                        &&& 0 <= i < v.len()
                                        &&& (#[trigger] v[i]).is_extended
                                        &&& v[i].start_lba == a
                                        &&& v[i].end_lba + 1 == b
                                        &&& forall|j: int|
                                            i < j < v.len() ==> !(#[trigger] v[j]).is_extended
                                    };
                                assert(w[i] == v[i]);
                                assert forall|j: int| i < j < w.len() implies !(
                                #[trigger] w[j]).is_extended by {
                                    if j < v.len() {
                                        assert(w[j] == v[j]);
                                    }
                                }
                            },
                            None => {},
                        }
                    }
                }
            },
            Err(_) => {},
        }
    }
}

/// No sector belongs to two partitions that hold data.
pub open spec fn share_nothing(v: Seq<PartView>) -> bool {
    forall|i: int, j: int, x: int|
        #![trigger v[i], v[j], x + 0]
        0 <= i < v.len() && 0 <= j < v.len() && i != j && !v[i].is_extended && !v[j].is_extended
            ==> !(v[i].start_lba <= x < v[i].start_lba + v[i].size_sectors && v[j].start_lba <= x
            < v[j].start_lba + v[j].size_sectors)
}

/// Partitions are accepted where no sector belongs to two of them, and only there.
pub proof fn law_accepted_partitions_share_nothing(v: Seq<PartView>)
    ensures
        partition::disjoint_parts(v) <==> share_nothing(v),
{
    if share_nothing(v) {
        assert forall|i: int, j: int|
            0 <= i < v.len() && 0 <= j < v.len() && i != j && partition::is_real(#[trigger] v[i])
                && partition::is_real(#[trigger] v[j]) && (v[i].start_lba < v[j].start_lba || (
            v[i].start_lba == v[j].start_lba && i < j)) implies v[i].start_lba + v[i].size_sectors
            <= v[j].start_lba by {
            let x = v[j].start_lba as int;
            assert(x + 0 == x);
        }
    }
}

/// What a header says of the entries stands in its bytes: where they start, how many there
/// are, and how long each is.
pub proof fn law_header_says_what_it_holds(s: Seq<u8>, h: GptHeader)
    requires
        s.len() == 512,
        gpt::header_of(s) == Ok::<GptHeader, Seq<char>>(h),
    ensures
        holds_low_first(s, 72, 8, h.entry_lba as int),
        holds_low_first(s, 80, 4, h.num_entries as int),
        holds_low_first(s, 84, 4, h.entry_size as int),
        h.entry_size >= 128,
        s[0] == 0x45 && s[1] == 0x46 && s[2] == 0x49 && s[3] == 0x20,
        s[4] == 0x50 && s[5] == 0x41 && s[6] == 0x52 && s[7] == 0x54,
{
    layout::law_low_first_64(s, 72);
    layout::law_low_first_32(s, 80);
    layout::law_low_first_32(s, 84);
    layout::lemma_powers();
    let t = s.take(8);
    assert(t[0] == s[0] && t[1] == s[1] && t[2] == s[2] && t[3] == s[3]);
    assert(t[4] == s[4] && t[5] == s[5] && t[6] == s[6] && t[7] == s[7]);
    assert(t[0] == gpt::SIGNATURE@[0]);
}

/// A header is accepted where it is signed, gives itself 92 to 512 bytes, has the checksum
/// of these bytes, taken with zeros in place of the checksum itself, and gives an entry 128
/// bytes or more.
pub proof fn law_sound_header_is_accepted(
    s: Seq<u8>,
    cleared: Seq<u8>,
    size: int,
    entry_size: int,
)
    requires
        s.len() == 512,
        s[0] == 0x45 && s[1] == 0x46 && s[2] == 0x49 && s[3] == 0x20,
        s[4] == 0x50 && s[5] == 0x41 && s[6] == 0x52 && s[7] == 0x54,
        holds_low_first(s, 12, 4, size),
        92 <= size <= 512,
        cleared.len() == size,
        forall|i: int| #![trigger cleared[i]]
            0 <= i < size ==> cleared[i] == (if 16 <= i < 20 {
                0u8
            } else {
                s[i]
            }),
        holds_low_first(s, 16, 4, partition::crc32_of(cleared) as int),
        holds_low_first(s, 84, 4, entry_size),
        entry_size >= 128,
    ensures
        gpt::header_of(s) is Ok,
{
    layout::lemma_read_back(s, 12, size);
    layout::lemma_read_back(s, 16, partition::crc32_of(cleared) as int);
    layout::lemma_read_back(s, 84, entry_size);
    assert(gpt::without_crc(s).take(size) =~= cleared);
    assert(s.take(8) =~= gpt::SIGNATURE@);
}

/// `p` is the partition that the entry at `off` of `b` gives: its first and last sector and
/// its two identifiers stand there.
pub open spec fn is_listed(p: PartView, b: Seq<u8>, off: int) -> bool {
    &&& holds_low_first(b, off + 32, 8, p.start_lba as int)
    &&& holds_low_first(b, off + 40, 8, p.end_lba as int)
    &&& adds_up(p)
    &&& p.guid_type matches Some(t) && t.len() == 16 && forall|j: int|
        0 <= j < 16 ==> #[trigger] t[j] == b[off + j]
    &&& p.guid_unique matches Some(u) && u.len() == 16 && forall|j: int|
        0 <= j < 16 ==> #[trigger] u[j] == b[off + 16 + j]
    &&& p.partition_type is None
    &&& !p.is_extended
}

/// The entry at `off` is one that is used: its type is not all zeros.
pub open spec fn is_taken(b: Seq<u8>, off: int) -> bool {
    off + 128 <= b.len() && exists|j: int| 0 <= j < 16 && #[trigger] b[off + j] != 0
}

/// Each used entry among the first `n`, of `size` bytes each, gives a partition with its
/// number, in order, and no other does.
pub proof fn law_entries_are_listed(b: Seq<u8>, size: int, n: int)
    requires
        0 <= n <= u32::MAX,
        size >= 128,
        gpt::parts_upto(b, size, n) is Ok,
    ensures
        ({
            let v = gpt::parts_upto(b, size, n)->Ok_0;
            &&& forall|i: int| #![trigger v[i]]
                0 <= i < v.len() ==> {
                    let off = (v[i].number - 1) * size;
                    1 <= v[i].number <= n && is_taken(b, off) && is_listed(v[i], b, off)
                }
            &&& forall|i: int, j: int|
                #![trigger v[i], v[j]]
                0 <= i < j < v.len() ==> v[i].number < v[j].number
            &&& forall|k: int|
                0 <= k < n && #[trigger] is_taken(b, k * size) ==> exists|i: int|
                    0 <= i < v.len() && (#[trigger] v[i]).number == k + 1
        }),
    decreases n,
{
    let v = gpt::parts_upto(b, size, n)->Ok_0;
    if n > 0 {
        law_entries_are_listed(b, size, n - 1);
        let w = gpt::parts_upto(b, size, n - 1)->Ok_0;
        let off = (n - 1) * size;
        if off + 128 > b.len() || gpt::is_zero_guid(b, off) {
            assert(!is_taken(b, off));
        } else {
            let p = gpt::gpt_part(b, off, n);
            layout::law_low_first_64(b, off + 32);
            layout::law_low_first_64(b, off + 40);
            layout::lemma_powers();
            assert(off >= 0) by (nonlinear_arith)
                requires
                    off == (n - 1) * size,
                    n >= 1,
                    size >= 128,
            ;
            assert(is_listed(p, b, off));
            assert(is_taken(b, off)) by {
                let j = choose|j: int| 0 <= j < 16 && #[trigger] b[off + j] != 0;
                assert(b[off + j] != 0);
            }
            assert(v == w.push(p));
            assert(v[w.len() as int] == p);
            assert forall|k: int| 0 <= k < n && #[trigger] is_taken(b, k * size) implies exists|
                i: int,
            | 0 <= i < v.len() && (#[trigger] v[i]).number == k + 1 by {
                if k < n - 1 {
                    let i = choose|i: int| 0 <= i < w.len() && (#[trigger] w[i]).number == k + 1;
                    assert(v[i] == w[i]);
                }
            }
        }
    }
}

/// The character is one, and not the one that ends a name.
pub open spec fn is_name_char(c: char) -> bool {
    0 < c as int <= 0x10_FFFF && !(0xD800 <= c as int <= 0xDFFF)
}

/// The units of a character: itself, or two halves of ten bits each where it needs more than
/// sixteen.
pub open spec fn units_for(c: char) -> Seq<int> {
    if (c as int) < 0x1_0000 {
        seq![c as int]
    } else {
        seq![0xD800 + (c as int - 0x1_0000) / 1024, 0xDC00 + (c as int - 0x1_0000) % 1024]
    }
}

/// The units of a text.
pub open spec fn text_units(t: Seq<char>) -> Seq<int>
    decreases t.len(),
{
    if t.len() == 0 {
        Seq::empty()
    } else {
        units_for(t[0]) + text_units(t.skip(1))
    }
}

/// A name that is written in its units from unit `i` on, with a zero behind it where there is
/// room, is read back.
pub proof fn law_name_round_trip(b: Seq<u8>, off: int, i: int, t: Seq<char>)
    requires
        0 <= i,
        i + text_units(t).len() <= 36,
        forall|k: int| 0 <= k < t.len() ==> is_name_char(#[trigger] t[k]),
        forall|k: int|
            0 <= k < text_units(t).len() ==> holds_low_first(
                b,
                off + 2 * (i + k),
                2,
                #[trigger] text_units(t)[k],
            ),
        i + text_units(t).len() < 36 ==> b[off + 2 * (i + text_units(t).len())] == 0 && b[off + 2
            * (i + text_units(t).len()) + 1] == 0,
    ensures
        gpt::name_from(b, off, i) == t,
    decreases t.len(),
{
    if t.len() == 0 {
        assert(t =~= Seq::empty());
    } else {
        let u = text_units(t);
        let c = t[0];
        assert(is_name_char(c));
        let first = units_for(c);
        let rest = text_units(t.skip(1));
        assert(u =~= first + rest);
        assert(u[0] == first[0]);
        layout::lemma_read_back(b, off + 2 * (i + 0), u[0]);
        assert(gpt::unit(b, off, i) == u[0]);
        if first.len() == 2 {
            assert(u[1] == first[1]);
            layout::lemma_read_back(b, off + 2 * (i + 1), u[1]);
            assert(gpt::unit(b, off, i + 1) == u[1]);
            let x = c as int - 0x1_0000;
            assert(gpt::paired(u[0], u[1]) == c as int);
        }
        let n = first.len();
        assert forall|k: int| 0 <= k < rest.len() implies holds_low_first(
            b,
            off + 2 * (i + n + k),
            2,
            #[trigger] rest[k],
        ) by {
            assert(u[n + k] == rest[k]);
            assert(holds_low_first(b, off + 2 * (i + (n + k)), 2, u[n + k]));
        }
        assert forall|k: int| 0 <= k < t.skip(1).len() implies is_name_char(
            #[trigger] t.skip(1)[k],
        ) by {
            assert(t.skip(1)[k] == t[k + 1]);
        }
        law_name_round_trip(b, off, i + n, t.skip(1));
        if first.len() == 1 {
            assert(!(0xD800 <= u[0] <= 0xDFFF));
            assert((u[0] as u32) as char == c);
        } else {
            assert(i + 1 < 36);
            assert(0xD800 <= u[0] <= 0xDBFF);
            assert(0xDC00 <= u[1] <= 0xDFFF);
            assert((gpt::paired(u[0], u[1]) as u32) as char == c);
        }
        assert(seq![c] + t.skip(1) =~= t);
    }
}

/// A mount is tried on the partitions that hold data themselves and have sectors, each once,
/// in the order of the table.
pub proof fn law_mounts_are_tried_in_order(v: Seq<PartitionInfo>, n: int)
    requires
        0 <= n <= v.len(),
    ensures
        forall|i: int| #![trigger v[i]]
            0 <= i < n ==> (attempt::candidates(v, n).contains(i) <==> !v[i].is_extended
                && v[i].size_sectors > 0),
        forall|a: int, b: int|
            0 <= a < b < attempt::candidates(v, n).len() ==> #[trigger] attempt::candidates(v, n)[a]
                < #[trigger] attempt::candidates(v, n)[b],
        forall|a: int|
            0 <= a < attempt::candidates(v, n).len() ==> 0 <= #[trigger] attempt::candidates(v, n)[a]
                < n,
    decreases n,
{
    if n > 0 {
        law_mounts_are_tried_in_order(v, n - 1);
        let c = attempt::candidates(v, n - 1);
        let d = attempt::candidates(v, n);
        if d != c {
            assert(d[c.len() as int] == n - 1);
        }
        assert forall|i: int| #![trigger v[i]] 0 <= i < n implies (d.contains(i)
            <==> !v[i].is_extended && v[i].size_sectors > 0) by {
            if c.contains(i) {
                let k = choose|k: int| 0 <= k < c.len() && c[k] == i;
                assert(d[k] == i);
            }
            if d.contains(i) && i < n - 1 {
                let k = choose|k: int| 0 <= k < d.len() && d[k] == i;
                assert(c[k] == i);
            }
            if i == n - 1 && c.contains(i) {
                let k = choose|k: int| 0 <= k < c.len() && c[k] == i;
                assert(c[k] < n - 1);
            }
        }
    }
}

/// The partition with a number is the first of the table that has it and holds data itself;
/// there is none only where no such partition has the number.
pub proof fn law_partition_is_found_by_number(v: Seq<PartitionInfo>, number: u32, from: int)
    requires
        0 <= from,
    ensures
        match attempt::numbered(v, number, from) {
            Some(k) => {
                &&& from <= k < v.len()
                &&& v[k].number == number
                &&& !v[k].is_extended
                &&& forall|i: int| #![trigger v[i]]
                    from <= i < k ==> v[i].number != number || v[i].is_extended
            },
            None => forall|i: int| #![trigger v[i]]
                from <= i < v.len() ==> v[i].number != number || v[i].is_extended,
        },
    decreases v.len() - from,
{
    if from < v.len() {
        law_partition_is_found_by_number(v, number, from + 1);
    }
}

/// Byte `j` of sector `x` of a partition is byte `j` of the sector of the device that lies
/// `x` sectors behind the first one of the partition.
pub proof fn law_partition_is_a_part_of_the_device<D: BlockDevice>(
    p: PartitionDevice<D>,
    x: int,
    j: int,
)
    ensures
        (p.disk())(x * p.sector_len() + j) == (p.inner.disk())(
            (x + p.start_lba) * p.inner.sector_len() + j,
        ),
        p.sectors() == p.sector_count,
{
    let ss = p.inner.sector_len() as int;
    assert((x + p.start_lba) * ss == x * ss + p.start_lba * ss) by (nonlinear_arith);
}

/// What a partition hands on to its device are the requests that it was given, moved by its
/// first sector; none of them reaches a sector of the device outside the partition.
pub proof fn law_requests_stay_in_the_partition<D: BlockDevice>(
    p: PartitionDevice<D>,
    reqs: Seq<IoRequest>,
    i: int,
)
    requires
        p.in_range(reqs),
        0 <= i < reqs.len(),
    ensures
        ({
            let handed = device::further_on(reqs, p.start_lba as int);
            &&& handed.len() == reqs.len()
            &&& handed[i].lba - reqs[i].lba == p.start_lba
            &&& handed[i].count == reqs[i].count
            &&& handed[i].buffer == reqs[i].buffer
            &&& handed[i].is_write == reqs[i].is_write
            &&& handed[i].lba + handed[i].count <= p.start_lba + p.sector_count
        }),
{
    assert(reqs[i].lba + reqs[i].count <= p.sector_count);
}

/// A request that reaches beyond the partition is not accepted.
pub proof fn law_requests_beyond_are_refused<D: BlockDevice>(
    p: PartitionDevice<D>,
    reqs: Seq<IoRequest>,
    i: int,
)
    requires
        0 <= i < reqs.len(),
        reqs[i].lba + reqs[i].count > p.sector_count,
    ensures
        !p.in_range(reqs),
{
}

/// The partitions of a disk are those of the entries that stand from the sector on which the
/// header names, each of the size that it states: every one that is used, and no other.
pub proof fn law_table_is_read(d: spec_fn(int) -> u8, h: GptHeader, i: int, k: int)
    requires
        gpt::header_of(io::disk_range(d, 512, 512)) == Ok::<GptHeader, Seq<char>>(h),
        h.entry_size >= 128,
        gpt::gpt_table(d) is Ok,
        0 <= i < gpt::gpt_table(d)->Ok_0.len(),
        0 <= k < h.num_entries,
    ensures
        ({
            let v = gpt::gpt_table(d)->Ok_0;
            let own = h.entry_lba * 512 + (v[i].number - 1) * h.entry_size;
            let other = h.entry_lba * 512 + k * h.entry_size;
            &&& 1 <= v[i].number <= h.num_entries
            &&& is_listed(v[i], io::disk_range(d, own, 128), 0)
            &&& is_taken(io::disk_range(d, own, 128), 0)
            &&& is_taken(io::disk_range(d, other, 128), 0) ==> exists|j: int|
                0 <= j < v.len() && (#[trigger] v[j]).number == k + 1
        }),
{
    let v = gpt::gpt_table(d)->Ok_0;
    let (n, size) = (h.num_entries as int, h.entry_size as int);
    let from = h.entry_lba * 512;
    let b = io::disk_range(d, from, gpt::entry_sectors(h) * 512);
    law_entries_are_listed(b, size, n);
    assert(n * size <= gpt::entry_sectors(h) * 512);
    assert(v[i] == v[i]);
    let off = (v[i].number - 1) * size;
    lemma_entry_of_the_disk(d, from, gpt::entry_sectors(h) * 512, off, v[i]);
    let at = k * size;
    let e = io::disk_range(d, from + at, 128);
    if is_taken(e, 0) {
        assert(at >= 0 && at + 128 <= n * size) by (nonlinear_arith)
            requires
                at == k * size,
                0 <= k < n,
                size >= 128,
        ;
        let j = choose|j: int| 0 <= j < 16 && #[trigger] e[0 + j] != 0;
        assert(b[at + j] == e[j]);
        assert(is_taken(b, k * size));
    }
}

proof fn lemma_entry_of_the_disk(d: spec_fn(int) -> u8, from: int, len: int, off: int, p: PartView)
    requires
        0 <= off,
        0 <= len,
        is_taken(io::disk_range(d, from, len), off),
        is_listed(p, io::disk_range(d, from, len), off),
    ensures
        is_taken(io::disk_range(d, from + off, 128), 0),
        is_listed(p, io::disk_range(d, from + off, 128), 0),
{
    let b = io::disk_range(d, from, len);
    let e = io::disk_range(d, from + off, 128);
    assert forall|j: int| 0 <= j < 128 implies #[trigger] e[j] == b[off + j] by {}
    assert forall|j: nat| j < 8 implies e[0int + 32 + j] == #[trigger] layout::byte_of(
        p.start_lba as int,
        j,
    ) by {
        assert(b[off + 32 + j] == layout::byte_of(p.start_lba as int, j));
        assert(e[32int + j] == b[off + (32 + j)]);
    }
    assert forall|j: nat| j < 8 implies e[0int + 40 + j] == #[trigger] layout::byte_of(
        p.end_lba as int,
        j,
    ) by {
        assert(b[off + 40 + j] == layout::byte_of(p.end_lba as int, j));
        assert(e[40int + j] == b[off + (40 + j)]);
    }
    assert forall|j: int| 0 <= j < 16 implies #[trigger] (p.guid_type->0)[j] == e[0 + j] by {
        assert((p.guid_type->0)[j] == b[off + j]);
    }
    assert forall|j: int| 0 <= j < 16 implies #[trigger] (p.guid_unique->0)[j] == e[0 + 16 + j] by {
        assert((p.guid_unique->0)[j] == b[off + 16 + j]);
        assert(e[16 + j] == b[off + (16 + j)]);
    }
    let j = choose|j: int| 0 <= j < 16 && #[trigger] b[off + j] != 0;
    assert(e[0 + j] != 0);
}

/// Partitions that are taken in order begin one behind the other; of two that begin at the
/// same sector, the one that was listed first comes first. Each that is no container is taken
/// once.
pub proof fn law_order_of_partitions(v: Seq<PartView>, order: Seq<usize>, p: int, q: int)
    requires
        partition::is_order(v, order, v.len() as int),
        v.len() <= usize::MAX,
        0 <= p < q < order.len(),
    ensures
        v[order[p] as int].start_lba <= v[order[q] as int].start_lba,
        order[p] != order[q],
        v[order[p] as int].start_lba == v[order[q] as int].start_lba ==> order[p] < order[q],
{
    assert(partition::comes_first(v, order[p] as int, order[q] as int));
}

/// A step of the checksum keeps sums without carry, and takes a shift by one bit back.
proof fn lemma_step(a: u32, b: u32)
    ensures
        partition::crc_bit(a ^ b) == partition::crc_bit(a) ^ partition::crc_bit(b),
        a < 0x8000_0000 ==> partition::crc_bit((2 * a) as u32) == a,
{
    let c = a << 1;
    assert((if (a ^ b) & 1 != 0 {
        ((a ^ b) >> 1) ^ 0xEDB8_8320
    } else {
        (a ^ b) >> 1
    }) == (if a & 1 != 0 {
        (a >> 1) ^ 0xEDB8_8320
    } else {
        a >> 1
    }) ^ (if b & 1 != 0 {
        (b >> 1) ^ 0xEDB8_8320
    } else {
        b >> 1
    }) && (a < 0x8000_0000 ==> c == 2 * a && c & 1 == 0 && c >> 1 == a)) by (bit_vector)
        requires
            c == a << 1,
    ;
}

proof fn lemma_steps(a: u32, b: u32, n: int)
    requires
        0 <= n,
    ensures
        partition::crc_bits(a ^ b, n) == partition::crc_bits(a, n) ^ partition::crc_bits(b, n),
    decreases n,
{
    if n > 0 {
        lemma_steps(a, b, n - 1);
        lemma_step(partition::crc_bits(a, n - 1), partition::crc_bits(b, n - 1));
    }
}

/// Steps from a number that was shifted give the number.
proof fn lemma_shifted(v: int, n: nat)
    requires
        0 <= v,
        v * pow(2, n) <= u32::MAX,
    ensures
        partition::crc_bits((v * pow(2, n)) as u32, n as int) == v,
    decreases n,
{
    reveal(pow);
    if n == 0 {
        assert(v * 1 == v);
    } else {
        let m = (n - 1) as nat;
        vstd::arithmetic::power::lemma_pow_positive(2, m);
        assert(v * pow(2, n) == (2 * v) * pow(2, m)) by (nonlinear_arith)
            requires
                pow(2, n) == 2 * pow(2, m),
        ;
        assert(2 * v <= u32::MAX) by (nonlinear_arith)
            requires
                (2 * v) * pow(2, m) <= u32::MAX,
                pow(2, m) >= 1,
                0 <= v,
        ;
        lemma_shifted(2 * v, m);
        lemma_step(v as u32, 0);
    }
}

proof fn lemma_steps_in_two(c: u32, m: int, n: int)
    requires
        0 <= m,
        0 <= n,
    ensures
        partition::crc_bits(partition::crc_bits(c, m), n) == partition::crc_bits(c, m + n),
    decreases n,
{
    if n > 0 {
        lemma_steps_in_two(c, m, n - 1);
    }
}

/// A byte that is taken in behind `n` steps might as well have been taken in before them,
/// shifted by as many bits.
proof fn lemma_byte_before(c: u32, x: u8, n: nat)
    requires
        n <= 24,
    ensures
        ({
            let y = (x * pow(2, n)) as u32;
            &&& x * pow(2, n) <= u32::MAX
            &&& partition::crc_bits(partition::crc_bits(c, n as int) ^ (x as u32), 8)
                == partition::crc_bits(c ^ y, n as int + 8)
        }),
{
    vstd::arithmetic::power::lemma_pow_increases(2, n, 24);
    assert(pow(2, 24) == 0x100_0000) by {
        reveal_with_fuel(pow, 25);
    }
    vstd::arithmetic::power::lemma_pow_positive(2, n);
    assert(0 <= x * pow(2, n) <= 255 * 0x100_0000) by (nonlinear_arith)
        requires
            0 < pow(2, n) <= 0x100_0000,
            0 <= x <= 255,
    ;
    let y = (x * pow(2, n)) as u32;
    lemma_shifted(x as int, n);
    lemma_steps(c, y, n as int);
    lemma_steps_in_two(c ^ y, n as int, 8);
}

/// The register from which 32 steps start once the checksum of a text has been taken in.
proof fn lemma_last_register()
    ensures
        partition::crc_bits(0xFFFF_FFFF, 32) == 0xDEBB_20E3,
{
    let y0 = 0xFFFF_FFFFu32;
    assert(partition::crc_bits(y0, 0) == y0);
    let y1 = partition::crc_bit(y0);
    let y2 = partition::crc_bit(y1);
    let y3 = partition::crc_bit(y2);
    let y4 = partition::crc_bit(y3);
    let y5 = partition::crc_bit(y4);
    let y6 = partition::crc_bit(y5);
    let y7 = partition::crc_bit(y6);
    let y8 = partition::crc_bit(y7);
    let y9 = partition::crc_bit(y8);
    let y10 = partition::crc_bit(y9);
    let y11 = partition::crc_bit(y10);
    let y12 = partition::crc_bit(y11);
    let y13 = partition::crc_bit(y12);
    let y14 = partition::crc_bit(y13);
    let y15 = partition::crc_bit(y14);
    let y16 = partition::crc_bit(y15);
    let y17 = partition::crc_bit(y16);
    let y18 = partition::crc_bit(y17);
    let y19 = partition::crc_bit(y18);
    let y20 = partition::crc_bit(y19);
    let y21 = partition::crc_bit(y20);
    let y22 = partition::crc_bit(y21);
    let y23 = partition::crc_bit(y22);
    let y24 = partition::crc_bit(y23);
    let y25 = partition::crc_bit(y24);
    let y26 = partition::crc_bit(y25);
    let y27 = partition::crc_bit(y26);
    let y28 = partition::crc_bit(y27);
    let y29 = partition::crc_bit(y28);
    let y30 = partition::crc_bit(y29);
    let y31 = partition::crc_bit(y30);
    let y32 = partition::crc_bit(y31);
    assert(partition::crc_bits(y0, 1) == y1);
    assert(partition::crc_bits(y0, 2) == y2);
    assert(partition::crc_bits(y0, 3) == y3);
    assert(partition::crc_bits(y0, 4) == y4);
    assert(partition::crc_bits(y0, 5) == y5);
    assert(partition::crc_bits(y0, 6) == y6);
    assert(partition::crc_bits(y0, 7) == y7);
    assert(partition::crc_bits(y0, 8) == y8);
    assert(partition::crc_bits(y0, 9) == y9);
    assert(partition::crc_bits(y0, 10) == y10);
    assert(partition::crc_bits(y0, 11) == y11);
    assert(partition::crc_bits(y0, 12) == y12);
    assert(partition::crc_bits(y0, 13) == y13);
    assert(partition::crc_bits(y0, 14) == y14);
    assert(partition::crc_bits(y0, 15) == y15);
    assert(partition::crc_bits(y0, 16) == y16);
    assert(partition::crc_bits(y0, 17) == y17);
    assert(partition::crc_bits(y0, 18) == y18);
    assert(partition::crc_bits(y0, 19) == y19);
    assert(partition::crc_bits(y0, 20) == y20);
    assert(partition::crc_bits(y0, 21) == y21);
    assert(partition::crc_bits(y0, 22) == y22);
    assert(partition::crc_bits(y0, 23) == y23);
    assert(partition::crc_bits(y0, 24) == y24);
    assert(partition::crc_bits(y0, 25) == y25);
    assert(partition::crc_bits(y0, 26) == y26);
    assert(partition::crc_bits(y0, 27) == y27);
    assert(partition::crc_bits(y0, 28) == y28);
    assert(partition::crc_bits(y0, 29) == y29);
    assert(partition::crc_bits(y0, 30) == y30);
    assert(partition::crc_bits(y0, 31) == y31);
    assert(partition::crc_bits(y0, 32) == y32);
    assert(y32 == 0xDEBB_20E3) by (bit_vector)
        requires
            y0 == 0xFFFF_FFFFu32,
            y1 == partition::crc_bit(y0),
            y2 == partition::crc_bit(y1),
            y3 == partition::crc_bit(y2),
            y4 == partition::crc_bit(y3),
            y5 == partition::crc_bit(y4),
            y6 == partition::crc_bit(y5),
            y7 == partition::crc_bit(y6),
            y8 == partition::crc_bit(y7),
            y9 == partition::crc_bit(y8),
            y10 == partition::crc_bit(y9),
            y11 == partition::crc_bit(y10),
            y12 == partition::crc_bit(y11),
            y13 == partition::crc_bit(y12),
            y14 == partition::crc_bit(y13),
            y15 == partition::crc_bit(y14),
            y16 == partition::crc_bit(y15),
            y17 == partition::crc_bit(y16),
            y18 == partition::crc_bit(y17),
            y19 == partition::crc_bit(y18),
            y20 == partition::crc_bit(y19),
            y21 == partition::crc_bit(y20),
            y22 == partition::crc_bit(y21),
            y23 == partition::crc_bit(y22),
            y24 == partition::crc_bit(y23),
            y25 == partition::crc_bit(y24),
            y26 == partition::crc_bit(y25),
            y27 == partition::crc_bit(y26),
            y28 == partition::crc_bit(y27),
            y29 == partition::crc_bit(y28),
            y30 == partition::crc_bit(y29),
            y31 == partition::crc_bit(y30),
            y32 == partition::crc_bit(y31),
    ;
}

proof fn lemma_same_text(a: Seq<u8>, b: Seq<u8>, n: int)
    requires
        0 <= n <= a.len(),
        n <= b.len(),
        forall|i: int| 0 <= i < n ==> a[i] == b[i],
    ensures
        partition::crc_upto(a, n) == partition::crc_upto(b, n),
    decreases n,
{
    if n > 0 {
        lemma_same_text(a, b, n - 1);
    }
}

proof fn lemma_powers_of_two()
    ensures
        pow(2, 0) == 1,
        pow(2, 8) == 0x100,
        pow(2, 16) == 0x1_0000,
        pow(2, 24) == 0x100_0000,
{
    reveal_with_fuel(pow, 25);
}

/// The bytes of a checksum cancel the register that it was made of.
proof fn lemma_cancelled(r: u32, sum: u32, y0: u32, y1: u32, y2: u32, y3: u32)
    requires
        sum == !r,
        y0 == sum % 0x100,
        y1 == sum / 0x100 % 0x100 * 0x100,
        y2 == sum / 0x1_0000 % 0x100 * 0x1_0000,
        y3 == sum / 0x100_0000 % 0x100 * 0x100_0000,
    ensures
        (((r ^ y0) ^ y1) ^ y2) ^ y3 == 0xFFFF_FFFF,
        !0xDEBB_20E3u32 == 0x2144_DF1C,
{
    assert((((r ^ y0) ^ y1) ^ y2) ^ y3 == 0xFFFF_FFFF && !0xDEBB_20E3u32 == 0x2144_DF1C)
        by (bit_vector)
        requires
            sum == !r,
            y0 == sum % 0x100,
            y1 == sum / 0x100 % 0x100 * 0x100,
            y2 == sum / 0x1_0000 % 0x100 * 0x1_0000,
            y3 == sum / 0x100_0000 % 0x100 * 0x100_0000,
    ;
}

/// A text with its checksum behind it, low byte first, has one and the same checksum, whatever
/// the text is.
#[verifier::rlimit(40)]
pub proof fn law_checksum_of_a_checked_text(b: Seq<u8>)
    ensures
        partition::crc32_of(b + low_first(partition::crc32_of(b) as int, 4)) == 0x2144_DF1C,
{
    let n = b.len() as int;
    let r = partition::crc_upto(b, n);
    let sum = partition::crc32_of(b);
    let t = low_first(sum as int, 4);
    let all = b + t;
    layout::lemma_first_bytes(sum as int);
    lemma_same_text(b, all, n);
    assert(all[n] == t[0] && all[n + 1] == t[1] && all[n + 2] == t[2] && all[n + 3] == t[3]);
    lemma_powers_of_two();
    let (x0, x1, x2, x3) = (t[0], t[1], t[2], t[3]);
    assert(partition::crc_bits(r, 0) == r);
    lemma_byte_before(r, x0, 0);
    let c1 = r ^ (x0 as u32);
    let y1 = (x1 * 0x100) as u32;
    lemma_byte_before(c1, x1, 8);
    let c2 = c1 ^ y1;
    let y2 = (x2 * 0x1_0000) as u32;
    lemma_byte_before(c2, x2, 16);
    let c3 = c2 ^ y2;
    let y3 = (x3 * 0x100_0000) as u32;
    lemma_byte_before(c3, x3, 24);
    let c4 = c3 ^ y3;
    let y0 = x0 as u32;
    assert(partition::crc_upto(all, n + 1) == partition::crc_bits(c1, 8));
    assert(partition::crc_upto(all, n + 2) == partition::crc_bits(c2, 16));
    assert(partition::crc_upto(all, n + 3) == partition::crc_bits(c3, 24));
    assert(partition::crc_upto(all, n + 4) == partition::crc_bits(c4, 32));
    lemma_cancelled(r, sum, y0, y1, y2, y3);
    lemma_last_register();
}

/// A container is an entry of type 5 or 15.
pub proof fn law_types_of_containers(t: u8)
    ensures
        mbr::is_extended_type(t) <==> t == 5 || t == 15,
{
}

/// A record protects a table with identifiers where one of its four entries has type EEh.
pub proof fn law_protective_record(s: Seq<u8>)
    requires
        s.len() == 512,
    ensures
        partition::is_protective(s) <==> exists|k: int|
            0 <= k < 4 && #[trigger] s[446 + 16 * k + 4] == 0xEE,
{
    if partition::is_protective(s) {
        if s[446int + 16 * 0 + 4] == 0xEE {
        } else if s[446int + 16 * 1 + 4] == 0xEE {
        } else if s[446int + 16 * 2 + 4] == 0xEE {
        } else {
            assert(s[446int + 16 * 3 + 4] == 0xEE);
        }
    }
    if exists|k: int| 0 <= k < 4 && #[trigger] s[446 + 16 * k + 4] == 0xEE {
        let k = choose|k: int| 0 <= k < 4 && #[trigger] s[446 + 16 * k + 4] == 0xEE;
        assert(k == 0 || k == 1 || k == 2 || k == 3);
    }
}

/// No more than a hundred records of logical partitions are followed.
pub proof fn law_links_are_counted()
    ensures
        crate::partition::MAX_EBR_CHAIN == 100,
{
}

} // verus!
