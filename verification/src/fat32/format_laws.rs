//! What the structures on a FAT32 volume look like, byte by byte.

use vstd::arithmetic::power::pow;
use vstd::prelude::*;

use crate::blockdriver::traits::BlockDevice;
use crate::bytes;
use crate::drivers::rtc;
use crate::fat32::allocator;
use crate::fat32::bpb;
use crate::fat32::bpb::Bpb;
use crate::fat32::cache;
use crate::fat32::dirent;
use crate::fat32::file_write;
use crate::fat32::io;
use crate::fat32::names;
use crate::fat32::superblock::Fat32SuperBlock;
use crate::fat32::upkeep;
use crate::layout;
use crate::layout::{holds_low_first, low_first};
use crate::text;

verus! {

/// The numbers in a boot sector.
pub struct Boot {
    pub bytes_per_sector: int,
    pub sectors_per_cluster: int,
    pub reserved: int,
    pub tables: int,
    pub root_entries: int,
    pub small_total: int,
    pub small_table: int,
    pub large_total: int,
    pub table: int,
    pub root: int,
    pub info: int,
    pub flags: int,
}

/// The boot sector holds the numbers in their places.
pub open spec fn is_boot(s: Seq<u8>, n: Boot) -> bool {
    &&& s.len() == 512
    &&& holds_low_first(s, 11, 2, n.bytes_per_sector)
    &&& s[13] == n.sectors_per_cluster
    &&& holds_low_first(s, 14, 2, n.reserved)
    &&& s[16] == n.tables
    &&& holds_low_first(s, 17, 2, n.root_entries)
    &&& holds_low_first(s, 19, 2, n.small_total)
    &&& holds_low_first(s, 22, 2, n.small_table)
    &&& holds_low_first(s, 32, 4, n.large_total)
    &&& holds_low_first(s, 36, 4, n.table)
    &&& holds_low_first(s, 44, 4, n.root)
    &&& holds_low_first(s, 48, 2, n.info)
    &&& s[66] == n.flags
}

/// The number of sectors of the volume.
pub open spec fn total_of(n: Boot) -> int {
    if n.small_total == 0 {
        n.large_total
    } else {
        n.small_total
    }
}

proof fn lemma_boot(s: Seq<u8>, n: Boot)
    requires
        is_boot(s, n),
    ensures
        bytes::le16(s, 11) == n.bytes_per_sector,
        bytes::le16(s, 14) == n.reserved,
        bytes::le16(s, 17) == n.root_entries,
        bytes::le16(s, 19) == n.small_total,
        bytes::le16(s, 22) == n.small_table,
        bytes::le32(s, 32) == n.large_total,
        bytes::le32(s, 36) == n.table,
        bytes::le32(s, 44) == n.root,
        bytes::le16(s, 48) == n.info,
{
    layout::lemma_read_back(s, 11, n.bytes_per_sector);
    layout::lemma_read_back(s, 14, n.reserved);
    layout::lemma_read_back(s, 17, n.root_entries);
    layout::lemma_read_back(s, 19, n.small_total);
    layout::lemma_read_back(s, 22, n.small_table);
    layout::lemma_read_back(s, 32, n.large_total);
    layout::lemma_read_back(s, 36, n.table);
    layout::lemma_read_back(s, 44, n.root);
    layout::lemma_read_back(s, 48, n.info);
}

/// A boot sector is taken for one of FAT32 exactly where it ends in 55h AAh, has no room for
/// root entries, and states the size of a table in 32 bits only.
pub proof fn law_boot_sector_is_known(s: Seq<u8>, n: Boot)
    requires
        is_boot(s, n),
    ensures
        bpb::is_fat32_boot(s) <==> s[510] == 0x55 && s[511] == 0xAA && n.root_entries == 0
            && n.small_table == 0 && n.table != 0,
{
    lemma_boot(s, n);
}

/// A geometry is accepted exactly where sectors have 512 bytes, a cluster has a power of two
/// sectors up to 128, there are reserved sectors and tables, the root has a cluster, and
/// something is left behind the tables on a device that holds the volume.
pub proof fn law_geometry_is_accepted(s: Seq<u8>, n: Boot, sectors: int)
    requires
        is_boot(s, n),
    ensures
        bpb::is_valid_geometry(s, sectors) <==> n.bytes_per_sector == 512 && (exists|k: nat|
            k < 8 && n.sectors_per_cluster == #[trigger] pow(2, k)) && n.reserved > 0 && n.tables
            > 0 && n.root > 1 && n.reserved + n.tables * n.table < total_of(n) && total_of(n)
            <= sectors,
{
    lemma_boot(s, n);
    reveal_with_fuel(pow, 9);
    assert(pow(2, 0) == 1 && pow(2, 1) == 2 && pow(2, 2) == 4 && pow(2, 3) == 8);
    assert(pow(2, 4) == 16 && pow(2, 5) == 32 && pow(2, 6) == 64 && pow(2, 7) == 128);
}

/// What was read from a boot sector are its numbers; the clusters fill what is left behind the
/// tables, as far as whole ones fit.
pub proof fn law_boot_sector_says_what_it_holds(s: Seq<u8>, n: Boot, b: Bpb)
    requires
        is_boot(s, n),
        b.describes(s),
        n.sectors_per_cluster > 0,
    ensures
        b.bytes_per_sec == n.bytes_per_sector,
        b.sec_per_clus == n.sectors_per_cluster,
        b.rsvd_sec_cnt == n.reserved,
        b.num_fats == n.tables,
        b.fat_sz32 == n.table,
        b.root_clus == n.root,
        b.fsinfo_sec == n.info,
        b.active_fat == n.flags,
        b.byts_per_clus == 512 * n.sectors_per_cluster,
        b.first_data_sec == n.reserved + n.tables * n.table,
        b.first_data_sec + b.total_clus * n.sectors_per_cluster <= total_of(n),
        total_of(n) < b.first_data_sec + (b.total_clus + 1) * n.sectors_per_cluster,
{
    lemma_boot(s, n);
    let (left, c) = (total_of(n) - b.first_data_sec, n.sectors_per_cluster);
    assert(left / c * c <= left < (left / c + 1) * c) by (nonlinear_arith)
        requires
            c > 0,
    ;
}

/// The clusters lie one behind the other from the first data sector on.
pub proof fn law_clusters_lie_in_a_row(b: Bpb, c: int)
    requires
        2 <= c,
    ensures
        b.lba_of(2) == b.first_data_sec,
        b.lba_of(c + 1) == b.lba_of(c) + b.sec_per_clus,
{
    assert((2 - 2) * b.sec_per_clus == 0) by (nonlinear_arith);
    assert((c - 1) * b.sec_per_clus == (c - 2) * b.sec_per_clus + b.sec_per_clus)
        by (nonlinear_arith);
}

/// No two clusters share a sector, and none lies in a table or in front of them.
pub proof fn law_clusters_are_apart(b: Bpb, c: int, d: int)
    requires
        b.wf(),
        2 <= c < d,
    ensures
        b.rsvd_sec_cnt + b.num_fats * b.fat_sz32 <= b.lba_of(c),
        b.lba_of(c) + b.sec_per_clus <= b.lba_of(d),
    decreases d - c,
{
    law_clusters_lie_in_a_row(b, d - 1);
    assert(0 <= (c - 2) * b.sec_per_clus) by (nonlinear_arith)
        requires
            c >= 2,
            b.sec_per_clus >= 0,
    ;
    if c + 1 < d {
        law_clusters_are_apart(b, c, d - 1);
    }
}

/// The table in use is the first, unless bit 7 of the flags says that the lowest four bits
/// name it; the tables lie one behind the other behind the reserved sectors.
pub proof fn law_table_in_use(b: Bpb)
    ensures
        b.active_fat & 0x80u8 == 0 ==> b.active_lba() == b.rsvd_sec_cnt,
        b.active_fat & 0x80u8 != 0 ==> b.active_lba() == b.rsvd_sec_cnt + (b.active_fat & 0x0Fu8)
            * b.fat_sz32,
{
    let f = b.active_fat;
    assert((f & 0x80u8 != 0) == (f >= 0x80u8) && f & 0x0Fu8 == f % 0x10u8) by (bit_vector);
    assert(0 * b.fat_sz32 == 0);
}

/// The entry of a cluster is the number in the four bytes of the table that are its own,
/// without its highest four bits.
pub proof fn law_table_entry<D: BlockDevice>(sb: Fat32SuperBlock<D>, c: int, v: int)
    requires
        0 <= c,
        holds_low_first(io::disk_range(sb.device.disk(), sb.bpb.active_lba() * 512 + 4 * c, 4), 0, 4, v),
    ensures
        sb.disk_entry(c) < 0x1000_0000,
        sb.disk_entry(c) <= v,
        (v - sb.disk_entry(c)) % 0x1000_0000 == 0,
{
    let d = sb.device.disk();
    let (q, r) = (c / 128, c % 128);
    let from = sb.bpb.active_lba() * 512 + 4 * c;
    let s = cache::sector_at(d, sb.bpb.active_lba() + q);
    let t = io::disk_range(d, from, 4);
    assert(c == 128 * q + r);
    assert((sb.bpb.active_lba() + q) * 512 + r * 4 == from);
    layout::lemma_read_back(t, 0, v);
    assert(s[r * 4] == t[0] && s[r * 4 + 1] == t[1] && s[r * 4 + 2] == t[2] && s[r * 4 + 3]
        == t[3]);
    assert(bytes::le32(s, r * 4) == v);
}

/// What is written of a first cluster are the high half at 20 and the low half at 26, each low
/// byte first; nothing else changes, and what stands there is the first cluster.
pub proof fn law_first_cluster(e: Seq<u8>, c: int)
    requires
        e.len() == 32,
        0 <= c < 0x1_0000_0000,
    ensures
        dirent::with_cluster(e, c) == e.take(20) + low_first(c, 4).skip(2) + e.subrange(22, 26)
            + low_first(c, 4).take(2) + e.skip(28),
        dirent::entry_cluster(dirent::with_cluster(e, c)) == c,
{
    layout::lemma_first_bytes(c);
    let (h, l) = (c / 0x1_0000, c % 0x1_0000);
    assert(h / 0x100 == c / 0x100_0000);
    assert(l % 0x100 == c % 0x100);
    assert(l / 0x100 % 0x100 == c / 0x100 % 0x100);
    let w = dirent::with_cluster(e, c);
    let f = low_first(c, 4);
    assert(w =~= e.take(20) + f.skip(2) + e.subrange(22, 26) + f.take(2) + e.skip(28));
    assert(w[20] == h % 0x100 && w[21] == h / 0x100 % 0x100);
    assert(w[26] == l % 0x100 && w[27] == l / 0x100 % 0x100);
}

/// The size is written behind all else, low byte first; nothing else changes, and what stands
/// there is the size.
pub proof fn law_file_size(e: Seq<u8>, n: int)
    requires
        e.len() == 32,
        0 <= n < 0x1_0000_0000,
    ensures
        dirent::with_size(e, n) == e.take(28) + low_first(n, 4),
        holds_low_first(e, 28, 4, n) ==> dirent::entry_size(e) == n,
{
    layout::law_written_low_first(n);
    layout::lemma_read_back(e, 28, n);
    assert(dirent::with_size(e, n) =~= e.take(28) + low_first(n, 4));
}

/// The entry with a short name has the name, the attributes, the case of the name, the first
/// cluster and the size, and nothing else.
pub proof fn law_short_entry(sfn: Seq<u8>, attr: u8, case: u8, c: int, n: int)
    requires
        sfn.len() == 11,
        0 <= c < 0x1_0000_0000,
        0 <= n < 0x1_0000_0000,
    ensures
        names::short_entry(sfn, attr, case, c, n) == sfn + seq![attr, case] + Seq::new(
            7,
            |i: int| 0u8,
        ) + low_first(c, 4).skip(2) + Seq::new(4, |i: int| 0u8) + low_first(c, 4).take(2)
            + low_first(n, 4),
{
    let e = names::short_entry(sfn, attr, case, c, n);
    let head = Seq::new(
        32,
        |i: int|
            if i < 11 {
                sfn[i]
            } else if i == 11 {
                attr
            } else if i == 12 {
                case
            } else {
                0u8
            },
    );
    law_first_cluster(head, c);
    law_file_size(dirent::with_cluster(head, c), n);
    let f = low_first(c, 4);
    assert(e =~= sfn + seq![attr, case] + Seq::new(7, |i: int| 0u8) + f.skip(2) + Seq::new(
        4,
        |i: int| 0u8,
    ) + f.take(2) + low_first(n, 4));
}

/// The 13 units of an entry of a long name stand one behind the other, in the bytes of the
/// entry that hold neither its number, its attributes, its checksum nor its cluster.
pub proof fn law_units_stand_in_order(i: int, j: int)
    requires
        0 <= i < j < 13,
    ensures
        1 <= dirent::vfat_offset(i),
        dirent::vfat_offset(i) + 2 <= dirent::vfat_offset(j),
        dirent::vfat_offset(j) + 2 <= 32,
        dirent::vfat_offset(i) + 2 <= 11 || 14 <= dirent::vfat_offset(i),
        dirent::vfat_offset(i) + 2 <= 26 || 28 <= dirent::vfat_offset(i),
        dirent::vfat_offset(j) + 2 <= 11 || 14 <= dirent::vfat_offset(j),
        dirent::vfat_offset(j) + 2 <= 26 || 28 <= dirent::vfat_offset(j),
{
}

/// A sum of bytes in which each sum is turned right by one bit before the next byte is added.
pub open spec fn turned_sum(s: Seq<u8>) -> u8
    decreases s.len(),
{
    if s.len() == 0 {
        0
    } else {
        let t = turned_sum(s.drop_last());
        let turned = (t >> 1) | (t << 7);
        ((turned + s.last()) % 256) as u8
    }
}

/// The checksum of a short name is the turned sum of its bytes.
pub proof fn law_checksum(s: Seq<u8>, n: int)
    requires
        0 <= n <= s.len(),
    ensures
        dirent::checksum_of(s, n) == turned_sum(s.take(n)),
    decreases n,
{
    if n > 0 {
        law_checksum(s, n - 1);
        assert(s.take(n).drop_last() =~= s.take(n - 1));
        let t = turned_sum(s.take(n - 1));
        assert((t >> 1) | (t << 7) == t / 2 + (t % 2) * 128) by (bit_vector);
    }
}

/// Every entry of a long name carries the turned sum of the eleven bytes of its short name.
pub proof fn law_long_name_is_tied(
    entries: Seq<Seq<u8>>,
    name: Seq<char>,
    sfn: Seq<u8>,
    attr: u8,
    case: u8,
    c: int,
    n: int,
    i: int,
)
    requires
        names::is_group(entries, name, sfn, attr, case, c, n),
        sfn.len() == 11,
        0 <= i < entries.len() - 1,
    ensures
        entries[i].len() == 32,
        entries[i][11] == 0x0F,
        entries[i][13] == turned_sum(sfn),
{
    law_checksum(sfn, 11);
    assert(sfn.take(11) =~= sfn);
    let long = entries.drop_last();
    let needed = long.len() as int;
    assert(long[needed - 1 - (needed - 1 - i)] == entries[i]);
}

/// What is read off the first sector of a volume's notes: its three signatures, the number of
/// free clusters and the cluster from which to look for one. The rest of the sector is kept.
pub proof fn law_volume_notes(s: Seq<u8>, free: int, hint: int)
    requires
        s.len() == 512,
        0 <= free < 0x1_0000_0000,
        0 <= hint < 0x1_0000_0000,
    ensures
        upkeep::fsinfo_of(s, free, hint) == seq![0x52u8, 0x52, 0x61, 0x41] + s.subrange(4, 484)
            + seq![0x72u8, 0x72, 0x41, 0x61] + low_first(free, 4) + low_first(hint, 4)
            + s.subrange(496, 508) + seq![0u8, 0, 0x55, 0xAA],
{
    layout::law_written_low_first(free);
    layout::law_written_low_first(hint);
    let f = upkeep::fsinfo_of(s, free, hint);
    let lead = bytes::le32_bytes(upkeep::FSINFO_LEAD_SIG as int);
    let mid = bytes::le32_bytes(upkeep::FSINFO_STRUCT_SIG as int);
    let trail = bytes::le32_bytes(upkeep::FSINFO_TRAIL_SIG as int);
    assert(lead =~= seq![0x52u8, 0x52, 0x61, 0x41]);
    assert(mid =~= seq![0x72u8, 0x72, 0x41, 0x61]);
    assert(trail =~= seq![0u8, 0, 0x55, 0xAA]);
    assert(f =~= lead + s.subrange(4, 484) + mid + low_first(free, 4) + low_first(hint, 4)
        + s.subrange(496, 508) + trail);
}

/// The number of free clusters is the size of the set of them.
pub proof fn law_count_is_the_size(f: spec_fn(int) -> bool, lo: int, hi: int)
    ensures
        Set::new(|i: int| lo <= i < hi && f(i)).finite(),
        upkeep::count_where(f, lo, hi) == Set::new(|i: int| lo <= i < hi && f(i)).len(),
    decreases hi - lo,
{
    let all = Set::new(|i: int| lo <= i < hi && f(i));
    if hi <= lo {
        assert(all =~= Set::empty());
    } else {
        law_count_is_the_size(f, lo, hi - 1);
        let less = Set::new(|i: int| lo <= i < hi - 1 && f(i));
        if f(hi - 1) {
            assert(all =~= less.insert(hi - 1));
        } else {
            assert(all =~= less);
        }
    }
}

/// As many clusters hold `n` bytes as are needed, and no more.
pub proof fn law_clusters_suffice(n: int, cs: int)
    requires
        0 <= n,
        0 < cs,
    ensures
        n <= file_write::clusters_for(n, cs) * cs < n + cs,
        0 <= file_write::clusters_for(n, cs),
{
    let k = file_write::clusters_for(n, cs);
    if n > 0 {
        assert(n <= ((n - 1) / cs + 1) * cs < n + cs && 0 <= (n - 1) / cs) by (nonlinear_arith)
            requires
                n > 0,
                cs > 0,
        ;
    } else {
        assert(0 * cs == 0);
    }
}

/// A time and a date of an entry: two seconds, minutes and hours from the lowest bits on, and
/// days, months and years from 1980.
pub proof fn law_time_of_an_entry(
    e: Seq<u8>,
    year: int,
    month: int,
    day: int,
    hour: int,
    minute: int,
    pairs: int,
)
    requires
        e.len() == 32,
        1980 <= year < 2108,
        1 <= month <= 12,
        1 <= day <= 31,
        0 <= hour < 24,
        0 <= minute < 60,
        0 <= pairs < 30,
        holds_low_first(e, 22, 2, pairs + minute * pow(2, 5) + hour * pow(2, 11)),
        holds_low_first(e, 24, 2, day + month * pow(2, 5) + (year - 1980) * pow(2, 9)),
    ensures
        dirent::entry_mtime(e) == ((rtc::days_since_epoch(year, month, day) * 24 + hour) * 60
            + minute) * 60 + 2 * pairs,
{
    assert(pow(2, 5) == 32 && pow(2, 9) == 512 && pow(2, 11) == 2048) by {
        reveal_with_fuel(pow, 12);
    }
    let time = pairs + minute * 32 + hour * 2048;
    let date = day + month * 32 + (year - 1980) * 512;
    layout::lemma_read_back(e, 22, time);
    layout::lemma_read_back(e, 24, date);
    lemma_three_fields(pairs, minute, hour, 32, 64);
    lemma_three_fields(day, month, year - 1980, 32, 16);
}

/// Three numbers that stand one above the other are told apart.
proof fn lemma_three_fields(a: int, b: int, c: int, m: int, n: int)
    by (nonlinear_arith)
    requires
        0 <= a < m,
        0 <= b < n,
        0 <= c,
    ensures
        (a + b * m + c * (m * n)) % m == a,
        (a + b * m + c * (m * n)) / m % n == b,
        (a + b * m + c * (m * n)) / (m * n) == c,
{
    let x = a + b * m + c * (m * n);
    let y = b + c * n;
    assert(x == y * m + a);
    assert(x / m == y && x % m == a);
    assert(y / n == c && y % n == b);
    assert(x == c * (m * n) + (b * m + a));
    assert(0 <= b * m + a < m * n);
    assert(x / (m * n) == c);
}

/// An entry without a month or a day states no time.
pub proof fn law_entry_without_a_date(e: Seq<u8>)
    requires
        e.len() == 32,
        e[24] == 0,
        e[25] == 0,
    ensures
        dirent::entry_mtime(e) == 0,
{
}

/// The number that decimal digits make.
pub open spec fn number_of(digits: Seq<u8>) -> int
    decreases digits.len(),
{
    if digits.len() == 0 {
        0
    } else {
        10 * number_of(digits.drop_last()) + (digits.last() - 48)
    }
}

/// The decimal digits of a number are digits, make the number, and begin with no zero that is
/// not the only one.
pub proof fn law_decimal(n: int)
    requires
        0 <= n,
    ensures
        number_of(text::decimal(n)) == n,
        forall|i: int|
            0 <= i < text::decimal(n).len() ==> 48 <= #[trigger] text::decimal(n)[i] <= 57,
        text::decimal(n).len() > 0,
        n > 0 ==> text::decimal(n)[0] != 48,
    decreases n,
{
    let d = text::decimal(n);
    if n >= 10 {
        law_decimal(n / 10);
        assert(d.drop_last() =~= text::decimal(n / 10));
        assert(d[0] == text::decimal(n / 10)[0]);
    } else {
        assert(d.drop_last() =~= Seq::empty());
        assert(number_of(d.drop_last()) == 0);
    }
}

/// Two short names that are tried for one name under different numbers are told apart by the
/// numbers: what stands behind the last tilde of the stem makes the number.
pub proof fn law_numbered_names(b: Seq<u8>, k: int)
    requires
        1 <= k <= 99999,
    ensures
        ({
            let s = dirent::sfn_candidate(b, k);
            let plain = dirent::sfn_candidate(b, 0);
            exists|t: int|
                2 <= t < 7 && s[t] == 126 && number_of(#[trigger] s.subrange(t + 1, 8)) == k
                    && s.take(t) == plain.take(t) && s.skip(8) == plain.skip(8)
        }),
{
    let s = dirent::sfn_candidate(b, k);
    let plain = dirent::sfn_candidate(b, 0);
    let digits = text::decimal(k);
    law_decimal(k);
    assert(pow(10, 5) == 100000) by {
        reveal_with_fuel(pow, 6);
    }
    lemma_few_digits(k, 5);
    let t = 7 - digits.len();
    assert(s.subrange(t + 1, 8) =~= digits);
    assert(s.take(t) =~= plain.take(t));
    assert(s.skip(8) =~= plain.skip(8));
}

proof fn lemma_few_digits(n: int, digits: nat)
    requires
        0 <= n < pow(10, digits),
        1 <= digits,
    ensures
        text::decimal(n).len() <= digits,
    decreases digits,
{
    reveal(pow);
    if n >= 10 {
        if digits == 1 {
            assert(pow(10, 0) == 1);
        } else {
            lemma_few_digits(n / 10, (digits - 1) as nat);
        }
    }
}

/// What a name is made of: a stem and an extension behind the last dot.
pub open spec fn is_parted(b: Seq<u8>, stem: Seq<u8>, ext: Seq<u8>) -> bool {
    &&& b == stem + seq![46u8] + ext
    &&& !ext.contains(46)
}

/// A name is parted at its last dot.
pub proof fn law_name_is_parted(b: Seq<u8>, stem: Seq<u8>, ext: Seq<u8>)
    ensures
        is_parted(b, stem, ext) ==> dirent::stem_of(b) == stem && dirent::ext_of(b) == ext
            && dirent::last_dot(b, b.len() as int) == stem.len(),
        !b.contains(46) ==> dirent::stem_of(b) == b && dirent::ext_of(b) == Seq::<u8>::empty()
            && dirent::last_dot(b, b.len() as int) == -1,
{
    if is_parted(b, stem, ext) {
        assert forall|i: int| stem.len() < i < b.len() implies #[trigger] b[i] != 46 by {
            assert(ext[i - stem.len() - 1] == b[i]);
        }
        assert(b[stem.len() as int] == 46);
        lemma_last_dot(b, b.len() as int, stem.len() as int);
        assert(b.take(stem.len() as int) =~= stem);
        assert(b.skip(stem.len() as int + 1) =~= ext);
    }
    if !b.contains(46) {
        lemma_last_dot(b, b.len() as int, -1);
    }
}

proof fn lemma_last_dot(b: Seq<u8>, n: int, d: int)
    requires
        -1 <= d < n <= b.len() || (d == -1 && 0 <= n <= b.len()),
        d >= 0 ==> b[d] == 46,
        forall|i: int| d < i < n ==> #[trigger] b[i] != 46,
    ensures
        dirent::last_dot(b, n) == d,
    decreases n,
{
    if n > 0 && n - 1 != d {
        lemma_last_dot(b, n - 1, d);
    }
}

/// The bytes have a small letter and no capital one.
pub open spec fn is_small_only(b: Seq<u8>) -> bool {
    &&& exists|i: int| 0 <= i < b.len() && 97 <= #[trigger] b[i] <= 122
    &&& forall|i: int| 0 <= i < b.len() ==> !(65 <= #[trigger] b[i] <= 90)
}

/// An entry keeps of a name whether its stem is in small letters, in bit 3, and whether its
/// extension is, in bit 4.
pub proof fn law_case_is_kept(b: Seq<u8>, stem: Seq<u8>, ext: Seq<u8>)
    requires
        is_parted(b, stem, ext),
    ensures
        (dirent::case_flags(b) / 8 % 2 == 1) == is_small_only(stem),
        (dirent::case_flags(b) / 16 % 2 == 1) == is_small_only(ext),
        dirent::case_flags(b) % 8 == 0,
        dirent::case_flags(b) < 32,
{
    law_name_is_parted(b, stem, ext);
    let d = stem.len() as int;
    assert forall|i: int| 0 <= i < d implies #[trigger] stem[i] == b[i] by {}
    assert forall|i: int| 0 <= i < ext.len() implies #[trigger] ext[i] == b[d + 1 + i] by {}
    if is_small_only(stem) {
        let i = choose|i: int| 0 <= i < stem.len() && 97 <= #[trigger] stem[i] <= 122;
        assert(dirent::is_small(b[i]));
        assert forall|i: int| 0 <= i < d implies !dirent::is_capital(#[trigger] b[i]) by {
            assert(!(65 <= stem[i] <= 90));
        }
    }
    if dirent::in_lower_case(b, 0, d) {
        let i = choose|i: int| 0 <= i < d && dirent::is_small(#[trigger] b[i]);
        assert(97 <= stem[i] <= 122);
    }
    if is_small_only(ext) {
        let i = choose|i: int| 0 <= i < ext.len() && 97 <= #[trigger] ext[i] <= 122;
        assert(dirent::is_small(b[d + 1 + i]));
        assert forall|i: int| d + 1 <= i < b.len() implies !dirent::is_capital(#[trigger] b[i]) by {
            assert(!(65 <= ext[i - d - 1] <= 90));
        }
    }
    if dirent::in_lower_case(b, d + 1, b.len() as int) {
        let i = choose|i: int| d + 1 <= i < b.len() && dirent::is_small(#[trigger] b[i]);
        assert(97 <= ext[i - d - 1] <= 122);
        assert forall|i: int| 0 <= i < ext.len() implies !(65 <= #[trigger] ext[i] <= 90) by {
            assert(!dirent::is_capital(b[d + 1 + i]));
        }
    }
}

/// A name needs a long one exactly where its stem has more than eight bytes, its extension
/// more than three, or it has a space or a byte outside ASCII.
pub proof fn law_long_name_is_needed(name: Seq<char>, b: Seq<u8>, stem: Seq<u8>, ext: Seq<u8>)
    requires
        is_parted(b, stem, ext),
        name != "."@,
        name != ".."@,
    ensures
        dirent::is_long_name(name, b) <==> stem.len() > 8 || ext.len() > 3 || exists|i: int|
            0 <= i < b.len() && (#[trigger] b[i] == 32 || b[i] >= 128),
{
    law_name_is_parted(b, stem, ext);
    if exists|i: int| 0 <= i < b.len() && (#[trigger] b[i] == 32 || b[i] >= 128) {
        let i = choose|i: int| 0 <= i < b.len() && (#[trigger] b[i] == 32 || b[i] >= 128);
        assert(dirent::needs_long(b[i]));
    }
}

/// What is cut off the end of a text are spaces, and all of them.
pub proof fn law_spaces_are_cut(s: Seq<u8>)
    ensures
        0 <= dirent::trimmed_len(s) <= s.len(),
        forall|i: int| dirent::trimmed_len(s) <= i < s.len() ==> #[trigger] s[i] == 32,
        dirent::trimmed_len(s) > 0 ==> s[dirent::trimmed_len(s) - 1] != 32,
    decreases s.len(),
{
    if s.len() > 0 && s.last() == 32 {
        law_spaces_are_cut(s.drop_last());
        let n = dirent::trimmed_len(s);
        assert forall|i: int| n <= i < s.len() implies #[trigger] s[i] == 32 by {
            if i < s.len() - 1 {
                assert(s.drop_last()[i] == 32);
            }
        }
    }
}

/// A word ends at the first space.
pub proof fn law_word_ends(s: Seq<u8>)
    ensures
        0 <= dirent::word_len(s) <= s.len(),
        forall|i: int| 0 <= i < dirent::word_len(s) ==> #[trigger] s[i] != 32,
        dirent::word_len(s) < s.len() ==> s[dirent::word_len(s)] == 32,
    decreases s.len(),
{
    if s.len() > 0 && s[0] != 32 {
        law_word_ends(s.skip(1));
        let n = dirent::word_len(s);
        assert forall|i: int| 0 <= i < n implies #[trigger] s[i] != 32 by {
            if i > 0 {
                assert(s.skip(1)[i - 1] != 32);
            }
        }
    }
}

/// The times and dates of an entry that are cleared are those of making, reading and writing;
/// the name, the attributes, the case, the cluster and the size are kept.
pub proof fn law_times_are_cleared(e: Seq<u8>)
    requires
        e.len() == 32,
    ensures
        dirent::without_timestamps(e) == e.take(13) + Seq::new(7, |i: int| 0u8) + e.subrange(20, 22)
            + Seq::new(4, |i: int| 0u8) + e.skip(26),
{
    assert(dirent::without_timestamps(e) =~= e.take(13) + Seq::new(7, |i: int| 0u8) + e.subrange(
        20,
        22,
    ) + Seq::new(4, |i: int| 0u8) + e.skip(26));
}

/// Small and capital letters are 32 apart; nothing else has a case.
pub proof fn law_letters(c: char, b: u8)
    ensures
        'A' <= c <= 'Z' ==> text::lower_char(c) as int == c as int + 32,
        !('A' <= c <= 'Z') ==> text::lower_char(c) == c,
        97 <= b <= 122 ==> text::upper_byte(b) + 32 == b,
        !(97 <= b <= 122) ==> text::upper_byte(b) == b,
        65 <= b <= 90 ==> text::lower_of_byte(b) as int == b + 32,
        !(65 <= b <= 90) ==> text::lower_of_byte(b) as int == b,
{
}

/// The file that is found under a name is the first with that name, whatever the case of its
/// letters; one is found wherever there is one.
pub proof fn law_first_of_the_name(
    files: Seq<crate::fat32::dir::SlotView>,
    name: Seq<char>,
    from: int,
    k: int,
)
    requires
        0 <= from <= k < files.len(),
        text::lower(crate::fat32::dir::slot_name(files[k])) == text::lower(name),
        forall|i: int|
            from <= i < k ==> text::lower(
                crate::fat32::dir::slot_name(#[trigger] files[i]),
            ) != text::lower(name),
    ensures
        names::first_named(files, name, from) == Some(k),
    decreases k - from,
{
    if from < k {
        law_first_of_the_name(files, name, from + 1, k);
    }
}

/// The search for free clusters finds each of them once, and no other.
pub proof fn law_search_finds_the_free(
    used: spec_fn(int) -> bool,
    total: int,
    start: int,
    i: int,
)
    requires
        0 < total,
        0 <= i < total,
    ensures
        allocator::free_prefix(used, total, start, total).contains(i) <==> !used(i),
        allocator::free_prefix(used, total, start, total).no_duplicates(),
{
    allocator::lemma_free_prefix(used, total, start, total);
    let f = allocator::free_prefix(used, total, start, total);
    if f.contains(i) {
        let j = choose|j: int| 0 <= j < f.len() && f[j] == i;
        assert(!used(f[j]));
    }
    if !used(i) {
        let off = (i - start) % total;
        vstd::arithmetic::div_mod::lemma_fundamental_div_mod(i - start, total);
        let q = (i - start) / total;
        assert(start + off == i + total * (-q)) by (nonlinear_arith)
            requires
                i - start == total * q + off,
        ;
        vstd::arithmetic::div_mod::lemma_mod_multiples_vanish(-q, i, total);
        vstd::arithmetic::div_mod::lemma_small_mod(i as nat, total as nat);
        assert((start + off) % total == i);
        lemma_found_from(used, total, start, off, total);
    }
}

proof fn lemma_found_from(
    used: spec_fn(int) -> bool,
    total: int,
    start: int,
    off: int,
    n: int,
)
    requires
        0 < total,
        0 <= off < n,
        !used((start + off) % total),
    ensures
        allocator::free_prefix(used, total, start, n).contains((start + off) % total),
    decreases n,
{
    let i = (start + off) % total;
    let prev = allocator::free_prefix(used, total, start, n - 1);
    let now = allocator::free_prefix(used, total, start, n);
    if off == n - 1 {
        assert(now[prev.len() as int] == i);
    } else {
        lemma_found_from(used, total, start, off, n - 1);
        let j = choose|j: int| 0 <= j < prev.len() && prev[j] == i;
        assert(now[j] == i);
    }
}

/// What is picked are as many clusters as are wanted, all of them free and none twice; they
/// lie in a row where there is such a row.
pub proof fn law_pick(
    used: spec_fn(int) -> bool,
    total: int,
    start: int,
    count: int,
    picked: Seq<int>,
    s: int,
)
    requires
        0 < total,
        0 < count,
        allocator::is_pick(used, total, start, count, picked),
    ensures
        picked.len() == count,
        picked.no_duplicates(),
        forall|j: int| 0 <= j < count ==> 0 <= #[trigger] picked[j] < total && !used(picked[j]),
        0 <= s && s + count <= total && (forall|i: int| s <= i < s + count ==> !#[trigger] used(i))
            ==> forall|j: int| 0 <= j < count ==> #[trigger] picked[j] == picked[0] + j,
{
    allocator::lemma_pick(used, total, start, count, picked);
    if 0 <= s && s + count <= total && (forall|i: int| s <= i < s + count ==> !#[trigger] used(i)) {
        let off = (s - start) % total;
        vstd::arithmetic::div_mod::lemma_fundamental_div_mod(s - start, total);
        let q = (s - start) / total;
        assert(start + off == s + total * (-q)) by (nonlinear_arith)
            requires
                s - start == total * q + off,
        ;
        vstd::arithmetic::div_mod::lemma_mod_multiples_vanish(-q, s, total);
        vstd::arithmetic::div_mod::lemma_small_mod(s as nat, total as nat);
        assert(allocator::round(total, start, off) == s);
        assert(allocator::window_free(used, total, start, off, count));
    }
}

/// After the table was written back, every copy of it holds the sectors that had changed.
pub proof fn law_copies_agree<D: BlockDevice>(
    o: Fat32SuperBlock<D>,
    after: Fat32SuperBlock<D>,
    l: u64,
    k: int,
    i: int,
)
    requires
        after.wrote_copies(o),
        o.fat_cache.dirty_set().contains(l),
        o.fat_cache.mirrored,
        o.fat_cache.dirty_in_table(),
        l < o.fat_cache.fat0_lba + o.fat_cache.fat_sz,
        1 <= k < o.fat_cache.num_fats,
        0 <= i < 512,
    ensures
        (after.device.disk())(l * 512 + i) == (after.device.disk())(
            (l + k * o.fat_cache.fat_sz) * 512 + i,
        ),
        (after.device.disk())(l * 512 + i) == o.fat_cache.contents()[l][i],
{
    let d = after.device.disk();
    assert(o.fat_cache.stored(d, l));
    assert(o.fat_cache.copy(d, l as int, k) == o.fat_cache.contents()[l]);
    let a = cache::sector_at(d, l as int);
    let b = cache::sector_at(d, l + k * o.fat_cache.fat_sz);
    assert(a[i] == d(l * 512 + i));
    assert(b[i] == d((l + k * o.fat_cache.fat_sz) * 512 + i));
}

/// The mark that a volume is in use is the lowest bit of byte 65 of its boot sector; nothing
/// else changes with it.
pub proof fn law_mark_of_a_volume_in_use(s: Seq<u8>, dirty: bool, i: int)
    requires
        s.len() == 512,
        0 <= i < 512,
    ensures
        ({
            let t = upkeep::with_dirty_bit(s, dirty);
            &&& t.len() == 512
            &&& (t[65] as int % 2 == 1) == dirty
            &&& t[65] as int / 2 == s[65] as int / 2
            &&& i != 65 ==> t[i] == s[i]
        }),
{
}

/// A directory that is moved leads to its new parent by its second entry; nothing else of it
/// changes.
pub proof fn law_parent_of_a_moved_directory<D: BlockDevice>(b: Seq<u8>, parent: u32, i: int)
    requires
        b.len() >= 64,
        0 <= i < b.len(),
    ensures
        ({
            let t = Fat32SuperBlock::<D>::with_parent(b, parent);
            &&& t.len() == b.len()
            &&& dirent::entry_cluster(t.subrange(32, 64)) == parent
            &&& !(52 <= i < 54) && !(58 <= i < 60) ==> t[i] == b[i]
        }),
{
    let e = b.subrange(32, 64);
    let t = Fat32SuperBlock::<D>::with_parent(b, parent);
    assert(crate::fat32::dir::entry_at(b, 1) =~= e);
    law_first_cluster(e, parent as int);
    let f = dirent::with_cluster(e, parent as int);
    assert(f.len() == 32);
    assert(t.subrange(32, 64) =~= f);
    if 32 <= i < 64 {
        assert(t[i] == f[i - 32]);
    }
}

/// The entries of a long name have room for its units, 13 in each, and the last is needed.
pub proof fn law_entries_of_a_long_name(name: Seq<char>)
    ensures
        13 * dirent::lfn_slots(name) >= text::utf16(name).len(),
        13 * (dirent::lfn_slots(name) - 1) < text::utf16(name).len() || text::utf16(name).len()
            == 0,
{
}

/// A file has the entries of its long name, where it needs one, and one more.
pub proof fn law_entries_of_a_file(name: Seq<char>)
    ensures
        names::group_len(name) >= 1,
        names::group_len(name) == 1 || 13 * (names::group_len(name) - 1) >= text::utf16(name).len(),
        !dirent::is_long_name(name, vstd::utf8::encode_utf8(name)) ==> names::group_len(name) == 1,
{
}

/// A chain ends with one of the eight highest numbers of 28 bits.
pub proof fn law_end_of_a_chain()
    ensures
        crate::fat32::superblock::EOC_MARKER == pow(2, 28) - 8,
{
    assert(pow(2, 28) == 0x1000_0000) by {
        reveal_with_fuel(pow, 29);
    }
}

/// Attributes of an entry are single bits, but for those of a part of a long name, which are
/// the four lowest together; a long name of 255 units fits in the parts that are counted.
pub proof fn law_numbers_of_entries()
    ensures
        crate::fat32::dirent::ATTR_VOLUME_ID == 8,
        crate::fat32::dirent::ATTR_DIRECTORY == 16,
        crate::fat32::dirent::ATTR_ARCHIVE == 32,
        crate::fat32::dirent::ATTR_LONG_NAME == 1 + 2 + 4 + 8,
        crate::fat32::dirent::DIR_DELETED == 0xE5,
        crate::fat32::dirent::DIR_END == 0,
        255 <= 13 * crate::fat32::dirent::MAX_LFN_ENTRIES < 255 + 13,
        crate::fat32::bpb::DIR_ENTRY_SIZE == 32,
        crate::fat32::bpb::MAX_SFN_LEN == 8 + 3,
        crate::fat32::superblock::FREE_CLUSTER == 0,
        crate::fat32::superblock::EOC_MARKER == crate::fat32::superblock::ENTRY_MODULUS - 8,
        crate::fat32::superblock::ENTRY_MODULUS == 0x1000_0000,
{
}

/// No transfer is longer than 63 pages, so it lies in 64 pages wherever it starts, which are
/// as many as one command names.
pub proof fn law_transfers_fit_in_a_command()
    ensures
        crate::fat32::transfer::MAX_RUN_BYTES == 63 * 4096,
        crate::fat32::cache::FLUSH_MAX_SECTORS * 512 == 63 * 4096,
        crate::fat32::chain_cache::TABLE_CHUNK * 512 == 63 * 4096,
        crate::fat32::upkeep::SCAN_CHUNK * 512 == 63 * 4096,
        crate::blockdriver::ahci::command::MAX_PRDT == 63 + 1,
        crate::blockdriver::dma::PAGE_SIZE == 4096,
        crate::fat32::io::SECTOR_SIZE == 512,
{
}

/// What is kept in memory is bounded: sectors of the table, transfers of one batch, and the
/// clusters of a volume that are kept as one bit each, in two MiB at most.
pub proof fn law_limits_of_memory()
    ensures
        crate::fat32::cache::MAX_FAT_CACHE_ENTRIES == 4096,
        crate::fat32::transfer::MAX_BATCH == 16,
        crate::fat32::upkeep::BITMAP_MAX_CLUSTERS == 8 * 0x20_0000,
{
}

} // verus!
