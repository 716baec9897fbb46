//! What the structures on an NTFS volume look like, byte by byte.

use vstd::arithmetic::power::pow;
use vstd::prelude::*;

use crate::bytes;
use crate::layout;
use crate::layout::holds_low_first;
use crate::ntfs::attr;
use crate::ntfs::attr::{AttrListView, AttrView};
use crate::ntfs::boot;
use crate::ntfs::boot::BootSector;
use crate::ntfs::index;
use crate::ntfs::index::{IndexEntryView, Walk};
use crate::ntfs::inode;
use crate::ntfs::inode::Parts;
use crate::ntfs::mount;
use crate::ntfs::record;
use crate::ntfs::runs;
use crate::ntfs::runs::Run;
use crate::ntfs::volume;
use crate::partition::laws::text_units;
use crate::text;

verus! {

/// Two to a power.
pub proof fn law_powers_of_two(k: nat)
    ensures
        boot::two_to(k) == pow(2, k),
        boot::is_pow2(pow(2, k)),
    decreases k,
{
    reveal(pow);
    if k > 0 {
        let n = (k - 1) as nat;
        law_powers_of_two(n);
        vstd::arithmetic::power::lemma_pow_positive(2, n);
        assert(pow(2, k) == 2 * pow(2, n));
        assert(pow(2, k) / 2 == pow(2, n));
    }
}

/// A number is taken for a power of two exactly where it is one.
pub proof fn law_power_of_two(n: int)
    ensures
        boot::is_pow2(n) <==> exists|k: nat| n == #[trigger] pow(2, k),
    decreases n,
{
    if boot::is_pow2(n) {
        let k = lemma_exponent(n);
        assert(n == pow(2, k));
    }
    if exists|k: nat| n == #[trigger] pow(2, k) {
        let k = choose|k: nat| n == #[trigger] pow(2, k);
        law_powers_of_two(k);
    }
}

proof fn lemma_exponent(n: int) -> (k: nat)
    requires
        boot::is_pow2(n),
    ensures
        n == pow(2, k),
    decreases n,
{
    reveal(pow);
    if n == 1 {
        0
    } else {
        let j = lemma_exponent(n / 2);
        assert(pow(2, j + 1) == 2 * pow(2, j));
        j + 1
    }
}

/// The size that a byte of the boot sector gives: up to 127, so many clusters; from 240 on,
/// the power of two that is missing to 256; nothing else is a size.
pub proof fn law_unit_size(b: u8, cluster: int)
    ensures
        1 <= b < 128 ==> boot::unit_bytes(boot::signed(b), cluster) == Some(b * cluster),
        240 <= b ==> boot::unit_bytes(boot::signed(b), cluster) == Some(
            pow(2, (256 - b) as nat),
        ),
        b == 0 || 128 <= b < 240 ==> boot::unit_bytes(boot::signed(b), cluster) is None,
{
    if b >= 240 {
        law_powers_of_two((256 - b) as nat);
    }
    assert(b * cluster == cluster * b) by (nonlinear_arith);
}

/// What was read from the boot sector are its numbers: the sectors of the volume at 40, the
/// cluster of the first table at 48, and the sizes at 64 and 68.
pub proof fn law_boot_sector_says_what_it_holds(s: Seq<u8>, b: BootSector, total: int, mft: int)
    requires
        s.len() == 512,
        b.describes(s),
        holds_low_first(s, 40, 8, total),
        holds_low_first(s, 48, 8, mft),
        boot::is_sound(s, total),
    ensures
        b.total_sectors == total,
        b.mft_lcn == mft,
        b.sectors_per_cluster == s[13],
        s[64] < 128 ==> b.record_size == 512 * s[13] * s[64],
        s[64] >= 128 ==> b.record_size == pow(2, (256 - s[64]) as nat),
        s[68] < 128 ==> b.index_size == 512 * s[13] * s[68],
        s[68] >= 128 ==> b.index_size == pow(2, (256 - s[68]) as nat),
        total * 512 <= u64::MAX ==> b.max_records * b.record_size <= total * 512 < (b.max_records
            + 1) * b.record_size,
{
    layout::lemma_read_back(s, 40, total);
    layout::lemma_read_back(s, 48, mft);
    law_unit_size(s[64], 512 * s[13]);
    law_unit_size(s[68], 512 * s[13]);
    assert(s[64] * (512 * s[13]) == 512 * s[13] * s[64]) by (nonlinear_arith);
    assert(s[68] * (512 * s[13]) == 512 * s[13] * s[68]) by (nonlinear_arith);
    let (bytes, r) = (total * 512, b.record_size as int);
    assert(r > 0);
    if bytes <= u64::MAX {
        assert(bytes / r * r <= bytes < (bytes / r + 1) * r) by (nonlinear_arith)
            requires
                r > 0,
        ;
    }
}

/// A volume is served exactly where its sectors have 512 bytes, its clusters a power of two up
/// to 128 of them, it fits the device, its first table lies on it, and its records and index
/// blocks have a power of two from 512 to 65536 bytes.
pub proof fn law_volume_is_served(s: Seq<u8>, total: int, mft: int, sectors: int)
    requires
        s.len() == 512,
        holds_low_first(s, 40, 8, total),
        holds_low_first(s, 48, 8, mft),
    ensures
        boot::is_sound(s, sectors) ==> s[11] == 0 && s[12] == 2 && s[13] <= 128 && (exists|k: nat|
            s[13] == #[trigger] pow(2, k)) && 0 < total <= sectors && mft * s[13] < total,
        boot::is_sound(s, sectors) && s[64] >= 128 ==> 240 <= s[64] <= 247,
        boot::is_sound(s, sectors) && s[68] >= 128 ==> 240 <= s[68] <= 247,
        boot::is_sound(s, sectors) && s[64] < 128 ==> 512 <= 512 * s[13] * s[64] <= 65536,
        boot::is_sound(s, sectors) && s[68] < 128 ==> 512 <= 512 * s[13] * s[68] <= 65536,
{
    layout::lemma_read_back(s, 40, total);
    layout::lemma_read_back(s, 48, mft);
    law_power_of_two(s[13] as int);
    law_unit_size(s[64], 512 * s[13]);
    law_unit_size(s[68], 512 * s[13]);
    assert(s[64] * (512 * s[13]) == 512 * s[13] * s[64]) by (nonlinear_arith);
    assert(s[68] * (512 * s[13]) == 512 * s[13] * s[68]) by (nonlinear_arith);
    reveal_with_fuel(pow, 17);
    if boot::is_sound(s, sectors) {
        assert(pow(2, 8) == 256 && pow(2, 7) == 128 && pow(2, 6) == 64 && pow(2, 5) == 32);
        assert(pow(2, 4) == 16 && pow(2, 3) == 8 && pow(2, 2) == 4 && pow(2, 1) == 2);
    }
}

/// The first bytes of the structures that have a name.
pub proof fn law_signatures(s: Seq<u8>)
    requires
        s.len() >= 11,
    ensures
        boot::is_ntfs(s) <==> s.subrange(3, 11) == seq![
            0x4Eu8,
            0x54,
            0x46,
            0x53,
            0x20,
            0x20,
            0x20,
            0x20,
        ],
        bytes::le32(s, 0) == record::RECORD_MAGIC <==> s.take(4) == seq![0x46u8, 0x49, 0x4C, 0x45],
        bytes::le32(s, 0) == index::INDEX_MAGIC <==> s.take(4) == seq![0x49u8, 0x4E, 0x44, 0x58],
{
    assert(boot::OEM_ID@ =~= seq![0x4Eu8, 0x54, 0x46, 0x53, 0x20, 0x20, 0x20, 0x20]);
    let t = s.take(4);
    assert(t[0] == s[0] && t[1] == s[1] && t[2] == s[2] && t[3] == s[3]);
    if bytes::le32(s, 0) == record::RECORD_MAGIC {
        assert(t =~= seq![0x46u8, 0x49, 0x4C, 0x45]);
    }
    if bytes::le32(s, 0) == index::INDEX_MAGIC {
        assert(t =~= seq![0x49u8, 0x4E, 0x44, 0x58]);
    }
}

/// A record from which the numbers at the ends of its sectors were taken off has in their
/// place what the array kept for it, one entry for each sector behind the number; every other
/// byte is as it was. The array stands in the first sector.
pub proof fn law_tails_are_put_back(d: Seq<u8>, off: int, ss: int, k: nat, i: int)
    requires
        4 <= ss,
        0 <= off,
        off + 2 * (d.len() as int / ss) + 2 <= ss - 2,
        k <= d.len() as int / ss,
        0 <= i < d.len(),
    ensures
        record::restored(d, off, ss, k).len() == d.len(),
        record::restored(d, off, ss, k)[i] == (if i / ss < k && i % ss >= ss - 2 {
            d[off + 2 * (i / ss + 1) + (i % ss - (ss - 2))]
        } else {
            d[i]
        }),
    decreases k, 0nat,
{
    vstd::arithmetic::div_mod::lemma_fundamental_div_mod(i, ss);
    let (q, r) = (i / ss, i % ss);
    assert(0 <= r < ss);
    assert(q >= 0) by (nonlinear_arith)
        requires
            i == ss * q + r,
            0 <= i,
            r < ss,
            ss > 0,
    ;
    if k > 0 {
        let n = (k - 1) as nat;
        law_tails_are_put_back(d, off, ss, n, i);
        let before = record::restored(d, off, ss, n);
        let tail = n * ss + ss - 2;
        lemma_rows(ss, q, n as int, r);
        let from = off + 2 * k;
        let all = d.len() as int;
        assert(ss <= all) by (nonlinear_arith)
            requires
                all / ss >= 1,
                ss > 0,
                all >= 0,
        ;
        lemma_entry_untouched(d, off, ss, n, from);
        lemma_entry_untouched(d, off, ss, n, from + 1);
        assert(before.subrange(from, from + 2)[0] == d[from]);
        assert(before.subrange(from, from + 2)[1] == d[from + 1]);
    }
}

/// Bytes of different sectors are apart.
proof fn lemma_rows(ss: int, q: int, n: int, r: int)
    requires
        ss > 0,
        0 <= r < ss,
    ensures
        q < n ==> ss * q + r < n * ss,
        q == n ==> ss * q + r == n * ss + r,
        q > n ==> ss * q + r >= n * ss + ss,
{
    if q < n {
        assert(ss * q + ss <= n * ss) by (nonlinear_arith)
            requires
                q + 1 <= n,
                ss > 0,
        ;
    } else if q > n {
        assert(ss * q >= n * ss + ss) by (nonlinear_arith)
            requires
                q >= n + 1,
                ss > 0,
        ;
    } else {
        assert(ss * q == n * ss) by (nonlinear_arith)
            requires
                q == n,
        ;
    }
}

/// A byte of the array stays as it is while tails are put back.
proof fn lemma_entry_untouched(d: Seq<u8>, off: int, ss: int, n: nat, j: int)
    requires
        4 <= ss,
        0 <= off,
        off + 2 * (d.len() as int / ss) + 2 <= ss - 2,
        n < d.len() as int / ss,
        0 <= j < ss - 2,
        j < d.len(),
    ensures
        record::restored(d, off, ss, n)[j] == d[j],
    decreases n, 1nat,
{
    if n > 0 {
        law_tails_are_put_back(d, off, ss, n, j);
        assert(j / ss == 0 && j % ss == j) by (nonlinear_arith)
            requires
                0 <= j < ss,
        ;
    }
}

/// A time in steps of a tenth of a microsecond from 1601 on is brought to seconds from 1970
/// on: 369 years lie between, of which 89 are leap years. What lies before 1970 is zero.
pub proof fn law_time(secs: int, steps: int)
    requires
        0 <= steps < 10_000_000,
        0 <= (secs + (369 * 365 + 89) * 86400) * 10_000_000 + steps <= u64::MAX,
    ensures
        attr::epoch_of(((secs + (369 * 365 + 89) * 86400) * 10_000_000 + steps) as u64) == (if secs
            < 0 {
            0
        } else {
            secs
        }),
{
    let ft = (secs + (369 * 365 + 89) * 86400) * 10_000_000 + steps;
    assert(ft / 10_000_000 == secs + 11_644_473_600);
}

/// The number of a record is what a reference holds in its six lower bytes.
pub proof fn law_reference(no: int, sequence: int)
    requires
        0 <= no < pow(256, 6),
    ensures
        attr::record_no(no + sequence * pow(256, 6)) == no,
{
    layout::lemma_powers();
    vstd::arithmetic::div_mod::lemma_mod_multiples_vanish(sequence, no, pow(256, 6));
    assert(sequence * pow(256, 6) + no == pow(256, 6) * sequence + no) by (nonlinear_arith);
}

/// A text that is written in its units is read back.
pub proof fn law_units_are_read(u: Seq<u16>, t: Seq<char>)
    requires
        u.len() == text_units(t).len(),
        forall|k: int| 0 <= k < u.len() ==> #[trigger] u[k] == text_units(t)[k],
        forall|k: int| 0 <= k < t.len() ==> text::is_char_code(#[trigger] t[k] as u32),
    ensures
        text::utf16_lossy(u) == t,
    decreases t.len(),
{
    if t.len() == 0 {
        assert(t =~= Seq::empty());
    } else {
        let first = crate::partition::laws::units_for(t[0]);
        let rest = text_units(t.skip(1));
        assert(text_units(t) == first + rest);
        assert(text::is_char_code(t[0] as u32));
        let v = u.skip(first.len() as int);
        assert forall|k: int| 0 <= k < v.len() implies #[trigger] v[k] == rest[k] by {
            assert(u[k + first.len()] == text_units(t)[k + first.len()]);
        }
        assert forall|k: int| 0 <= k < t.skip(1).len() implies text::is_char_code(
            #[trigger] t.skip(1)[k] as u32,
        ) by {
            assert(t.skip(1)[k] == t[k + 1]);
        }
        law_units_are_read(v, t.skip(1));
        assert(u[0] == first[0]);
        if first.len() == 2 {
            assert(u[1] == first[1]);
            let x = t[0] as int - 0x1_0000;
            assert(0 <= x < 0x10_0000);
            assert(x == x / 1024 * 1024 + x % 1024);
            assert(u[0] < 0xDC00 && u[1] < 0xE000);
        }
        assert(text::utf16_lossy(u)[0] == t[0]);
        assert(t =~= seq![t[0]] + t.skip(1));
    }
}

/// A name that is written in two bytes for each of its units, low byte first, is read back.
pub proof fn law_text_is_read(b: Seq<u8>, t: Seq<char>)
    requires
        b.len() == 2 * text_units(t).len(),
        forall|k: int|
            0 <= k < text_units(t).len() ==> holds_low_first(
                b,
                2 * k,
                2,
                #[trigger] text_units(t)[k],
            ),
        forall|k: int| 0 <= k < t.len() ==> text::is_char_code(#[trigger] t[k] as u32),
    ensures
        attr::text_of(b) == t,
{
    let u = attr::units_of(b);
    layout::lemma_powers();
    assert forall|k: int| 0 <= k < u.len() implies #[trigger] u[k] == text_units(t)[k] by {
        layout::lemma_read_back(b, 2 * k, text_units(t)[k]);
    }
    law_units_are_read(u, t);
}

/// A file name in a value: the reference of its directory, the time of its last change, its
/// size, its flags, its namespace and the name stand in their places.
pub proof fn law_file_name(
    v: Seq<u8>,
    parent: int,
    changed: int,
    size: int,
    flags: int,
    name: Seq<u8>,
)
    requires
        v.len() == 66 + name.len(),
        name.len() == 2 * v[64],
        v.skip(66) == name,
        holds_low_first(v, 0, 8, parent),
        holds_low_first(v, 16, 8, changed),
        holds_low_first(v, 48, 8, size),
        holds_low_first(v, 56, 4, flags),
    ensures
        attr::file_name_of(v) matches Some(f) && f.parent_ref == parent && f.mtime
            == attr::epoch_of(changed as u64) && f.size == size && f.flags == flags && f.namespace
            == v[65] && f.name == attr::text_of(name),
{
    layout::lemma_powers();
    layout::lemma_read_back(v, 0, parent);
    layout::lemma_read_back(v, 16, changed);
    layout::lemma_read_back(v, 48, size);
    layout::lemma_read_back(v, 56, flags);
    assert(v.subrange(66, 66 + v[64] * 2) =~= v.skip(66));
}

/// An attribute that stands in its record: its type, its flags and its value.
pub proof fn law_resident_attribute(
    rec: Seq<u8>,
    pos: int,
    kind: int,
    len: int,
    flags: int,
    value: Seq<u8>,
    at: int,
)
    requires
        0 <= pos,
        24 <= len,
        pos + len <= rec.len(),
        holds_low_first(rec, pos, 4, kind),
        holds_low_first(rec, pos + 4, 4, len),
        rec[pos + 8] == 0,
        rec[pos + 9] == 0,
        holds_low_first(rec, pos + 12, 2, flags),
        holds_low_first(rec, pos + 16, 4, value.len() as int),
        holds_low_first(rec, pos + 20, 2, at),
        at + value.len() <= len,
        rec.subrange(pos + at, pos + at + value.len()) == value,
    ensures
        attr::attr_at(rec, pos) matches Some(a) && a.attr_type == kind && a.flags == flags
            && a.name is None && a.resident && a.value == value,
{
    layout::lemma_powers();
    layout::lemma_read_back(rec, pos, kind);
    layout::lemma_read_back(rec, pos + 4, len);
    layout::lemma_read_back(rec, pos + 12, flags);
    layout::lemma_read_back(rec, pos + 16, value.len() as int);
    layout::lemma_read_back(rec, pos + 20, at);
}

/// An attribute that stands outside its record: its type, its flags, its first and its last
/// cluster, its size, the part of it that was written, and its mapping pairs.
pub proof fn law_attribute_outside(
    rec: Seq<u8>,
    pos: int,
    kind: int,
    len: int,
    flags: int,
    lowest: int,
    highest: int,
    map: int,
    size: int,
    written: int,
)
    requires
        0 <= pos,
        pos + len <= rec.len() <= usize::MAX,
        holds_low_first(rec, pos, 4, kind),
        holds_low_first(rec, pos + 4, 4, len),
        rec[pos + 8] != 0,
        rec[pos + 9] == 0,
        holds_low_first(rec, pos + 12, 2, flags),
        holds_low_first(rec, pos + 16, 8, lowest),
        holds_low_first(rec, pos + 24, 8, highest),
        holds_low_first(rec, pos + 32, 2, map),
        holds_low_first(rec, pos + 48, 8, size),
        holds_low_first(rec, pos + 56, 8, written),
        64 <= map < len,
    ensures
        attr::attr_at(rec, pos) matches Some(a) && a.attr_type == kind && a.flags == flags
            && a.name is None && !a.resident && a.lowest_vcn == lowest && a.highest_vcn == highest
            && a.real_size == size && a.init_size == written && a.map_off == pos + map && a.map_end
            == pos + len,
{
    layout::lemma_powers();
    layout::lemma_read_back(rec, pos, kind);
    layout::lemma_read_back(rec, pos + 4, len);
    layout::lemma_read_back(rec, pos + 12, flags);
    layout::lemma_read_back(rec, pos + 16, lowest);
    layout::lemma_read_back(rec, pos + 24, highest);
    layout::lemma_read_back(rec, pos + 32, map);
    layout::lemma_read_back(rec, pos + 48, size);
    layout::lemma_read_back(rec, pos + 56, written);
}

/// The name of an attribute stands where its place says, two bytes for each of its units.
pub proof fn law_attribute_name(rec: Seq<u8>, pos: int, len: int, at: int, name: Seq<u8>)
    requires
        0 <= pos,
        holds_low_first(rec, pos + 4, 4, len),
        rec[pos + 9] > 0,
        name.len() == 2 * rec[pos + 9],
        holds_low_first(rec, pos + 10, 2, at),
        rec.subrange(pos + at, pos + at + name.len()) == name,
    ensures
        attr::name_at(rec, pos) == Some(attr::text_of(name)),
        attr::name_fits(rec, pos) <==> at + name.len() <= len,
{
    layout::lemma_read_back(rec, pos + 4, len);
    layout::lemma_read_back(rec, pos + 10, at);
    assert(rec[pos + 9] * 2 == name.len());
}

/// The attributes of a record are those that stand one behind the other, from the place that
/// the record gives up to the end mark.
pub proof fn law_attributes_are_listed(
    rec: Seq<u8>,
    at: Seq<int>,
    attrs: Seq<AttrView>,
    end: int,
    k: int,
)
    requires
        at.len() == attrs.len() + 1,
        attrs.len() < 256,
        0 <= k <= attrs.len(),
        forall|i: int|
            0 <= i < attrs.len() ==> {
                &&& at[i] + 24 <= #[trigger] at[i + 1] <= end
                &&& holds_low_first(rec, at[i] + 4, 4, at[i + 1] - at[i])
                &&& !holds_low_first(rec, at[i], 4, 0xFFFF_FFFF)
                &&& attr::attr_at(rec, at[i]) == Some(attrs[i])
            },
        at.last() + 8 <= end,
        holds_low_first(rec, at.last(), 4, 0xFFFF_FFFF),
    ensures
        attr::attrs_from(rec, at[k], end, k as nat) == Some(attrs.skip(k)),
    decreases attrs.len() - k,
{
    if k == attrs.len() {
        layout::lemma_read_back(rec, at.last(), 0xFFFF_FFFF);
        assert(attrs.skip(k) =~= Seq::empty());
        assert(at[k] == at.last());
    } else {
        assert(at[k] + 24 <= at[k + 1]);
        law_attributes_are_listed(rec, at, attrs, end, k + 1);
        layout::lemma_read_back(rec, at[k] + 4, at[k + 1] - at[k]);
        layout::law_low_first_32(rec, at[k]);
        assert(attrs.skip(k) =~= seq![attrs[k]] + attrs.skip(k + 1));
    }
}

/// The attributes of a record begin at the place that it states, and end where its bytes in
/// use do.
pub proof fn law_attributes_of_a_record(rec: Seq<u8>, first: int, used: int)
    requires
        rec.len() >= 44,
        holds_low_first(rec, 20, 2, first),
        holds_low_first(rec, 28, 4, used),
        24 <= first,
    ensures
        first < used <= rec.len() ==> attr::attrs_of(rec) == attr::attrs_from(rec, first, used, 0),
        first < rec.len() < used ==> attr::attrs_of(rec) == attr::attrs_from(
            rec,
            first,
            rec.len() as int,
            0,
        ),
        first >= used ==> attr::attrs_of(rec) is None,
{
    layout::lemma_read_back(rec, 20, first);
    layout::lemma_read_back(rec, 28, used);
}

/// An entry of an attribute list: the type of the attribute, its first cluster, and the
/// reference of the record that holds it.
pub proof fn law_list_entry(v: Seq<u8>, pos: int, kind: int, lowest: int, reference: int)
    requires
        0 <= pos,
        holds_low_first(v, pos, 4, kind),
        v[pos + 6] == 0,
        holds_low_first(v, pos + 8, 8, lowest),
        holds_low_first(v, pos + 16, 8, reference),
    ensures
        attr::list_entry_at(v, pos) matches Some(e) && e.attr_type == kind && e.name is None
            && e.lowest_vcn == lowest && e.mft_ref == reference,
{
    layout::lemma_powers();
    layout::lemma_read_back(v, pos, kind);
    layout::lemma_read_back(v, pos + 8, lowest);
    layout::lemma_read_back(v, pos + 16, reference);
}

/// The entries of an attribute list are those that stand one behind the other in it.
pub proof fn law_list_is_read(v: Seq<u8>, at: Seq<int>, list: Seq<AttrListView>, k: int)
    requires
        at.len() == list.len() + 1,
        list.len() < 256,
        0 <= k <= list.len(),
        forall|i: int|
            0 <= i < list.len() ==> {
                &&& at[i] + 26 <= #[trigger] at[i + 1] <= v.len()
                &&& holds_low_first(v, at[i] + 4, 2, at[i + 1] - at[i])
                &&& !holds_low_first(v, at[i], 4, 0xFFFF_FFFF)
                &&& attr::list_entry_at(v, at[i]) == Some(list[i])
            },
        at.last() == v.len(),
    ensures
        attr::list_from(v, at[k], k as nat) == Some(list.skip(k)),
    decreases list.len() - k,
{
    if k == list.len() {
        assert(list.skip(k) =~= Seq::empty());
        assert(at[k] == at.last());
    } else {
        assert(at[k] + 26 <= at[k + 1]);
        law_list_is_read(v, at, list, k + 1);
        layout::lemma_read_back(v, at[k] + 4, at[k + 1] - at[k]);
        layout::law_low_first_32(v, at[k]);
        assert(list.skip(k) =~= seq![list[k]] + list.skip(k + 1));
    }
}

/// The entries of an index stand where its header says, counted from the header.
pub proof fn law_index_region(d: Seq<u8>, off: int, first: int, end: int)
    requires
        0 <= off,
        off + 8 <= d.len(),
        holds_low_first(d, off, 4, first),
        holds_low_first(d, off + 4, 4, end),
    ensures
        first <= end <= d.len() - off ==> index::region_of(d, off) == Some((off + first, off + end)),
        !(first <= end <= d.len() - off) ==> index::region_of(d, off) is None,
{
    layout::lemma_read_back(d, off, first);
    layout::lemma_read_back(d, off + 4, end);
}

/// An entry of a directory: the number of the record that it leads to, and what the file name
/// behind its head says. A file is a directory where bit 28 of its flags is set.
pub proof fn law_directory_entry(d: Seq<u8>, pos: int, reference: int, len: int, name: Seq<u8>)
    requires
        0 <= pos,
        holds_low_first(d, pos, 8, reference),
        holds_low_first(d, pos + 8, 2, len),
        holds_low_first(d, pos + 10, 2, name.len() as int),
        0 < name.len() <= len - 16,
        d.subrange(pos + 16, pos + 16 + name.len()) == name,
        attr::file_name_of(name) is Some,
        (attr::file_name_of(name)->0).name != "."@,
        (attr::file_name_of(name)->0).name != ".."@,
    ensures
        index::entry_at(d, pos) matches Some(e) && ({
            let f = attr::file_name_of(name)->0;
            &&& e.mft_ref == reference as int % pow(256, 6)
            &&& e.name == f.name
            &&& e.namespace == f.namespace
            &&& e.mtime == f.mtime
            &&& e.size == f.size
            &&& e.parent_ref == f.parent_ref
            &&& e.is_dir == (f.flags as int / pow(2, 28) % 2 == 1)
        }),
{
    layout::lemma_powers();
    layout::lemma_read_back(d, pos, reference);
    layout::lemma_read_back(d, pos + 8, len);
    layout::lemma_read_back(d, pos + 10, name.len() as int);
    lemma_bit_28((attr::file_name_of(name)->0).flags);
}

proof fn lemma_bit_28(g: u32)
    ensures
        (g & 0x1000_0000u32 != 0) == (g as int / pow(2, 28) % 2 == 1),
{
    assert(pow(2, 28) == 0x1000_0000) by {
        reveal_with_fuel(pow, 29);
    }
    assert((g & 0x1000_0000u32 != 0) == (g / 0x1000_0000u32 % 2 == 1)) by (bit_vector);
}

/// A node without blocks below it lists the entries that stand one behind the other in it, up
/// to the last, which is none. Bit 1 of the flags marks the last, and bit 0 those with a block
/// below.
pub proof fn law_leaf_is_listed(
    disk: spec_fn(int) -> u8,
    b: BootSector,
    alloc: Option<Seq<Run>>,
    d: Seq<u8>,
    at: Seq<int>,
    entries: Seq<IndexEntryView>,
    last: int,
    end: int,
    depth: int,
    w: Walk,
    k: int,
)
    requires
        at.len() == entries.len() + 1,
        w.out.len() + entries.len() - k < 1_000_000,
        0 <= k <= entries.len(),
        0 <= at[0],
        forall|i: int|
            0 <= i < entries.len() ==> {
                &&& at[i] + 16 <= #[trigger] at[i + 1] <= end
                &&& holds_low_first(d, at[i] + 8, 2, at[i + 1] - at[i])
                &&& d[at[i] + 12] as int % 4 == 0
                &&& index::entry_at(d, at[i]) == Some(entries[i])
            },
        16 <= last <= end - at.last(),
        holds_low_first(d, at.last() + 8, 2, last),
        d[at.last() + 12] as int / 2 % 2 == 1,
    ensures
        index::walked(disk, b, alloc, d, at[k], end, depth, w) == Some(
            Walk { out: w.out + entries.skip(k), ..w },
        ),
    decreases entries.len() - k,
{
    if k == entries.len() {
        assert(at[k] == at.last());
        lemma_last_entry(disk, b, alloc, d, at[k], last, end, depth, w);
        assert(w.out + entries.skip(k) =~= w.out);
    } else {
        assert(at[k] + 16 <= at[k + 1]);
        lemma_places_not_negative(at, entries.len() as int, k);
        lemma_one_entry(disk, b, alloc, d, at[k], at[k + 1], end, depth, w, entries[k]);
        let w1 = Walk { out: w.out.push(entries[k]), ..w };
        law_leaf_is_listed(disk, b, alloc, d, at, entries, last, end, depth, w1, k + 1);
        assert(w1.out + entries.skip(k + 1) =~= w.out + entries.skip(k));
    }
}

proof fn lemma_places_not_negative(at: Seq<int>, n: int, k: int)
    requires
        0 <= k <= n,
        at.len() == n + 1,
        0 <= at[0],
        forall|i: int| 0 <= i < n ==> at[i] + 16 <= #[trigger] at[i + 1],
    ensures
        0 <= at[k],
    decreases k,
{
    if k > 0 {
        lemma_places_not_negative(at, n, k - 1);
        assert(at[k - 1] + 16 <= at[k - 1 + 1]);
    }
}

/// An entry without a block below it is listed, and the walk goes on behind it.
proof fn lemma_one_entry(
    disk: spec_fn(int) -> u8,
    b: BootSector,
    alloc: Option<Seq<Run>>,
    d: Seq<u8>,
    pos: int,
    next: int,
    end: int,
    depth: int,
    w: Walk,
    e: IndexEntryView,
)
    requires
        0 <= pos,
        pos + 16 <= next <= end,
        holds_low_first(d, pos + 8, 2, next - pos),
        d[pos + 12] as int % 4 == 0,
        index::entry_at(d, pos) == Some(e),
        w.out.len() < 1_000_000,
    ensures
        index::walked(disk, b, alloc, d, pos, end, depth, w) == index::walked(
            disk,
            b,
            alloc,
            d,
            next,
            end,
            depth,
            Walk { out: w.out.push(e), ..w },
        ),
{
    lemma_flags(d, pos);
    layout::lemma_read_back(d, pos + 8, next - pos);
    assert(index::subnode_at(d, pos, depth) is None);
}

/// The last entry ends the walk.
proof fn lemma_last_entry(
    disk: spec_fn(int) -> u8,
    b: BootSector,
    alloc: Option<Seq<Run>>,
    d: Seq<u8>,
    pos: int,
    len: int,
    end: int,
    depth: int,
    w: Walk,
)
    requires
        16 <= len <= end - pos,
        holds_low_first(d, pos + 8, 2, len),
        d[pos + 12] as int / 2 % 2 == 1,
        w.out.len() < 1_000_000,
    ensures
        index::walked(disk, b, alloc, d, pos, end, depth, w) == Some(w),
{
    lemma_flags(d, pos);
    layout::lemma_read_back(d, pos + 8, len);
}

proof fn lemma_flags(d: Seq<u8>, p: int)
    ensures
        (index::entry_flags(d, p) & 0x01u16 != 0) == (d[p + 12] as int % 2 == 1),
        (index::entry_flags(d, p) & 0x02u16 != 0) == (d[p + 12] as int / 2 % 2 == 1),
{
    let f = index::entry_flags(d, p);
    assert((f & 0x01u16 != 0) == (f % 2 == 1) && (f & 0x02u16 != 0) == (f / 2 % 2 == 1))
        by (bit_vector);
    assert(f == d[p + 12] + 0x100 * d[p + 13]);
    assert(f as int % 2 == d[p + 12] as int % 2);
    assert(f as int / 2 == d[p + 12] as int / 2 + 0x80 * d[p + 13]);
}

/// The block below an entry is the one whose number stands in the last eight bytes of the
/// entry.
pub proof fn law_block_below(d: Seq<u8>, pos: int, len: int, vcn: int, depth: int)
    requires
        0 <= pos,
        24 <= len,
        depth < 16,
        holds_low_first(d, pos + 8, 2, len),
        holds_low_first(d, pos + len - 8, 8, vcn),
    ensures
        d[pos + 12] as int % 2 == 1 ==> index::subnode_at(d, pos, depth) == Some(vcn as u64),
        d[pos + 12] as int % 2 == 0 ==> index::subnode_at(d, pos, depth) is None,
{
    lemma_flags(d, pos);
    layout::lemma_read_back(d, pos + 8, len);
    layout::lemma_read_back(d, pos + len - 8, vcn);
}

/// A block is in use where its bit of the bitmap is set: bit `v % 8` of byte `v / 8`.
pub proof fn law_block_in_use(bits: Seq<u8>, v: int)
    requires
        0 <= v < 8 * bits.len(),
    ensures
        index::is_used(bits, v) <==> bits[v / 8] as int / pow(2, (v % 8) as nat) % 2 == 1,
{
    let (b, k) = (bits[v / 8], (v % 8) as u8);
    assert(k < 8);
    assert((b & (1u8 << 0u8) != 0) == (b % 2 == 1) && (b & (1u8 << 1u8) != 0) == (b / 2 % 2 == 1)
        && (b & (1u8 << 2u8) != 0) == (b / 4 % 2 == 1) && (b & (1u8 << 3u8) != 0) == (b / 8 % 2
        == 1) && (b & (1u8 << 4u8) != 0) == (b / 16 % 2 == 1) && (b & (1u8 << 5u8) != 0) == (b / 32
        % 2 == 1) && (b & (1u8 << 6u8) != 0) == (b / 64 % 2 == 1) && (b & (1u8 << 7u8) != 0) == (b
        / 128 % 2 == 1)) by (bit_vector);
    assert(pow(2, 0) == 1 && pow(2, 1) == 2 && pow(2, 2) == 4 && pow(2, 3) == 8) by {
        reveal_with_fuel(pow, 4);
    }
    assert(pow(2, 4) == 16 && pow(2, 5) == 32 && pow(2, 6) == 64 && pow(2, 7) == 128) by {
        reveal_with_fuel(pow, 8);
    }
    assert(k == 0 || k == 1 || k == 2 || k == 3 || k == 4 || k == 5 || k == 6 || k == 7);
}

/// A block behind the bits of a bitmap is not in use; without a bitmap every block is.
pub proof fn law_block_without_a_bit(bits: Seq<u8>, v: int)
    requires
        8 * bits.len() <= v,
    ensures
        index::is_used(bits, v) <==> bits.len() == 0,
{
}

/// Of the entries of a directory, all stay but the short names that repeat a name which came
/// before in another namespace.
pub proof fn law_aliases_go(out: Seq<IndexEntryView>, e: IndexEntryView)
    ensures
        index::without_aliases(out).contains(e) ==> out.contains(e),
        e.namespace != 2 && out.contains(e) ==> index::without_aliases(out).contains(e),
        e.namespace == 2 && out.contains(e) && (forall|x: IndexEntryView|
            out.contains(x) && #[trigger] x.name == e.name ==> x.namespace == 2)
            ==> index::without_aliases(out).contains(e),
    decreases out.len(),
{
    if out.len() > 0 {
        let less = out.drop_last();
        law_aliases_go(less, e);
        let kept = index::without_aliases(less);
        let all = index::without_aliases(out);
        assert(out =~= less.push(out.last()));
        assert forall|x: IndexEntryView| less.contains(x) implies out.contains(x) by {
            let i = choose|i: int| 0 <= i < less.len() && less[i] == x;
            assert(out[i] == x);
        }
        if out.contains(e) && !less.contains(e) {
            let i = choose|i: int| 0 <= i < out.len() && out[i] == e;
            if i < less.len() {
                assert(less[i] == e);
            }
            assert(out.last() == e);
        }
        if kept.contains(e) {
            let i = choose|i: int| 0 <= i < kept.len() && kept[i] == e;
            assert(all[i] == e);
        }
        if !index::is_alias(kept, out.last()) {
            assert(all[kept.len() as int] == out.last());
        } else if out.last() == e {
            let i = choose|i: int|
                0 <= i < kept.len() && (#[trigger] kept[i]).name == e.name && kept[i].namespace
                    != index::NAMESPACE_DOS;
            law_aliases_go(less, kept[i]);
            assert(kept.contains(kept[i]));
        }
        if all.contains(e) {
            let i = choose|i: int| 0 <= i < all.len() && all[i] == e;
            if i < kept.len() {
                assert(kept[i] == e);
            } else {
                assert(out[out.len() - 1] == e);
            }
        }
    }
}

/// No short name stays behind a long name that it repeats.
pub proof fn law_no_alias_stays(out: Seq<IndexEntryView>, i: int, j: int)
    requires
        0 <= i < j < index::without_aliases(out).len(),
        index::without_aliases(out)[i].namespace != 2,
        index::without_aliases(out)[j].namespace == 2,
    ensures
        index::without_aliases(out)[i].name != index::without_aliases(out)[j].name,
    decreases out.len(),
{
    let kept = index::without_aliases(out.drop_last());
    if j < kept.len() {
        law_no_alias_stays(out.drop_last(), i, j);
    } else {
        assert(index::without_aliases(out)[i] == kept[i]);
    }
}

/// The run that is found for a cluster of a file is the one that it lies in; where it lies in
/// none, none is found.
pub proof fn law_run_is_found(list: Seq<Run>, i: int, vcn: int)
    requires
        runs::sorted(list),
        runs::disjoint(list),
        0 <= i < list.len(),
        list[i].vcn <= vcn < list[i].vcn + list[i].len <= u64::MAX,
    ensures
        runs::found(list, vcn) == Some(list[i]),
{
    assert forall|j: int| i < j < list.len() implies (#[trigger] list[j]).vcn > vcn by {
        assert(list[i].vcn + list[i].len <= list[j].vcn);
    }
    lemma_last_at(list, i, vcn);
}

/// The last run at or before a cluster.
proof fn lemma_last_at(list: Seq<Run>, i: int, vcn: int)
    requires
        0 <= i < list.len(),
        list[i].vcn <= vcn,
        forall|j: int| i < j < list.len() ==> (#[trigger] list[j]).vcn > vcn,
    ensures
        runs::last_at(list, vcn) == Some(i),
    decreases list.len(),
{
    if i < list.len() - 1 {
        assert(list[list.len() - 1].vcn > vcn);
        let less = list.drop_last();
        assert forall|j: int| i < j < less.len() implies (#[trigger] less[j]).vcn > vcn by {
            assert(less[j] == list[j]);
        }
        lemma_last_at(less, i, vcn);
    }
}

proof fn lemma_last_at_inside(list: Seq<Run>, vcn: int)
    ensures
        runs::last_at(list, vcn) matches Some(i) ==> 0 <= i < list.len() && list[i].vcn <= vcn,
    decreases list.len(),
{
    if list.len() > 0 {
        lemma_last_at_inside(list.drop_last(), vcn);
    }
}

/// A cluster that lies in no run is not found.
pub proof fn law_no_run_is_found(list: Seq<Run>, vcn: int)
    requires
        forall|i: int|
            0 <= i < list.len() ==> vcn < (#[trigger] list[i]).vcn || list[i].vcn + list[i].len
                <= vcn,
        vcn < u64::MAX,
    ensures
        runs::found(list, vcn) is None,
{
    lemma_last_at_inside(list, vcn);
}

/// A byte of a file is the byte of the volume at the same place of the cluster that its run
/// assigns; in a hole it is zero.
pub proof fn law_byte_of_a_file(
    disk: spec_fn(int) -> u8,
    b: BootSector,
    list: Seq<Run>,
    i: int,
    pos: int,
)
    requires
        b.inv(),
        runs::sorted(list),
        runs::disjoint(list),
        0 <= i < list.len(),
        0 <= pos,
        list[i].vcn <= pos / (512 * b.sectors_per_cluster),
        pos / (512 * b.sectors_per_cluster) < list[i].vcn + list[i].len <= u64::MAX,
    ensures
        ({
            let cs = 512 * b.sectors_per_cluster;
            let cluster = list[i].lcn + (pos / cs - list[i].vcn);
            runs::file_byte(disk, b, list, pos) == (if list[i].lcn < 0 {
                0u8
            } else {
                disk(cluster * cs + pos % cs)
            })
        }),
{
    let cs = 512 * b.sectors_per_cluster;
    law_run_is_found(list, i, pos / cs);
    let r = list[i];
    vstd::arithmetic::div_mod::lemma_fundamental_div_mod(pos, cs);
    assert((r.lcn + (pos / cs - r.vcn)) * cs + pos % cs == r.lcn * cs + pos - r.vcn * cs)
        by (nonlinear_arith)
        requires
            pos == cs * (pos / cs) + pos % cs,
    ;
}

/// Bytes that runs hold without a gap are all read.
proof fn lemma_all_is_read(
    disk: spec_fn(int) -> u8,
    b: BootSector,
    list: Seq<Run>,
    pos: int,
    left: int,
)
    requires
        b.inv(),
        0 <= left,
        runs::content(disk, b, list, pos, left) is Some,
        forall|p: int|
            pos <= p < pos + left ==> runs::found(
                list,
                #[trigger] (p / (512 * b.sectors_per_cluster)),
            ) is Some,
    ensures
        runs::content(disk, b, list, pos, left)->0.len() == left,
    decreases left,
{
    if left > 0 {
        let cs = 512 * b.sectors_per_cluster;
        assert(runs::found(list, pos / cs) is Some);
        let run = runs::found(list, pos / cs)->0;
        let n = runs::span(run, b.cluster(), pos, left);
        assert(0 < n <= left);
        lemma_all_is_read(disk, b, list, pos + n, left - n);
    }
}

/// What is read of a file in runs has as many bytes as are wanted; those before the end of
/// what was written are the bytes of the file, and the others are zeros.
pub proof fn law_file_is_read(
    disk: spec_fn(int) -> u8,
    b: BootSector,
    list: Seq<Run>,
    init: int,
    offset: int,
    want: int,
    i: int,
)
    requires
        b.inv(),
        runs::sorted(list),
        runs::disjoint(list),
        0 <= offset,
        0 <= i < want,
        inode::run_bytes(disk, b, list, init, offset, want) is Some,
        forall|p: int|
            offset <= p < offset + want && p < init ==> runs::found(
                list,
                #[trigger] (p / (512 * b.sectors_per_cluster)),
            ) is Some,
    ensures
        inode::run_bytes(disk, b, list, init, offset, want)->0.len() == want,
        inode::run_bytes(disk, b, list, init, offset, want)->0[i] == (if offset + i < init {
            runs::file_byte(disk, b, list, offset + i)
        } else {
            0u8
        }),
{
    if offset < init {
        let n = if want < init - offset {
            want
        } else {
            init - offset
        };
        lemma_all_is_read(disk, b, list, offset, n);
        if offset + i < init {
            runs::law_content_is_the_file(disk, b, list, offset, n, i);
        }
    }
}

/// A record is what stands in the table at its number times the size of a record, with the
/// tails of its sectors put back.
pub proof fn law_record_is_read(
    disk: spec_fn(int) -> u8,
    b: BootSector,
    table: Seq<Run>,
    no: int,
    i: int,
)
    requires
        b.inv(),
        runs::sorted(table),
        runs::disjoint(table),
        0 <= no,
        volume::record_of(disk, b, table, no) is Some,
        0 <= i < b.record_size,
        i % 512 < 510,
        ({
            let array = runs::file_byte(disk, b, table, no * b.record_size + 4) + 0x100
                * runs::file_byte(disk, b, table, no * b.record_size + 5);
            array + 2 * (b.record_size as int / 512) + 2 <= 510
        }),
    ensures
        volume::record_of(disk, b, table, no)->0.len() == b.record_size,
        volume::record_of(disk, b, table, no)->0[i] == runs::file_byte(
            disk,
            b,
            table,
            no * b.record_size + i,
        ),
{
    let (at, n) = (no * b.record_size, b.record_size as int);
    assert(at >= 0) by (nonlinear_arith)
        requires
            at == no * b.record_size,
            no >= 0,
            b.record_size >= 0,
    ;
    let c = runs::content(disk, b, table, at, n)->0;
    runs::law_content_is_the_file(disk, b, table, at, n, i);
    runs::law_content_is_the_file(disk, b, table, at, n, 4);
    runs::law_content_is_the_file(disk, b, table, at, n, 5);
    law_tails_are_put_back(c, record::usa_off(c), 512, (n / 512) as nat, i);
}

/// The data of a file that is described by one attribute: the runs, the size and the part that
/// was written are those of the attribute, or the bytes are its value.
pub proof fn law_data_of_a_plain_file(
    disk: spec_fn(int) -> u8,
    b: BootSector,
    table: Seq<Run>,
    no: u64,
    rec: Seq<u8>,
    attrs: Seq<AttrView>,
    k: int,
)
    requires
        0 <= k < attrs.len(),
        attrs[k].attr_type == 0x80,
        attrs[k].name is None,
        attrs[k].flags as int % 2 == 0,
        attrs[k].flags as int / 0x4000 % 2 == 0,
        forall|i: int|
            0 <= i < attrs.len() && i != k ==> (#[trigger] attrs[i]).attr_type != 0x80
                || attrs[i].name is Some,
        forall|i: int| 0 <= i < attrs.len() ==> (#[trigger] attrs[i]).attr_type != 0x20,
        attrs[k].value.len() <= u64::MAX,
    ensures
        attrs[k].resident ==> (inode::parts_of(disk, b, table, no, rec, attrs) matches Some(p)
            && p.resident == Some(attrs[k].value) && p.size == attrs[k].value.len()
            && !p.unsupported),
        !attrs[k].resident && volume::attr_runs(rec, attrs[k]) is Some ==> (inode::parts_of(
            disk,
            b,
            table,
            no,
            rec,
            attrs,
        ) matches Some(p) && p.resident is None && p.runs == volume::attr_runs(rec, attrs[k])->0
            && p.size == attrs[k].real_size && p.init == attrs[k].init_size && !p.unsupported),
{
    let f = attrs[k].flags;
    assert(f % 2 == 0 && f / 0x4000u16 % 2 == 0 ==> f & 0x4001u16 == 0) by (bit_vector);
    lemma_none_of(attrs, 0x20, 0);
    lemma_skip_to(rec, attrs, 0, k, inode::no_parts());
    let p = inode::with_data(rec, attrs[k], inode::no_parts());
    if p is Some {
        lemma_skip_to(rec, attrs, k + 1, attrs.len() as int, p->0);
        assert(Seq::<Run>::empty() + volume::attr_runs(rec, attrs[k])->0
            =~= volume::attr_runs(rec, attrs[k])->0);
    }
}

proof fn lemma_none_of(attrs: Seq<AttrView>, t: u32, i: int)
    requires
        0 <= i,
        forall|j: int| i <= j < attrs.len() ==> (#[trigger] attrs[j]).attr_type != t,
    ensures
        inode::first_of(attrs, t, i) is None,
    decreases attrs.len() - i,
{
    if i < attrs.len() {
        lemma_none_of(attrs, t, i + 1);
    }
}

proof fn lemma_skip_to(rec: Seq<u8>, attrs: Seq<AttrView>, i: int, k: int, p: Parts)
    requires
        0 <= i <= k <= attrs.len(),
        forall|j: int|
            i <= j < k ==> (#[trigger] attrs[j]).attr_type != 0x80 || attrs[j].name is Some,
    ensures
        inode::with_all_data(rec, attrs, i, p) == inode::with_all_data(rec, attrs, k, p),
    decreases k - i,
{
    if i < k {
        lemma_skip_to(rec, attrs, i + 1, k, p);
    }
}

/// What a file is, and when it was changed, is what its first file name says.
pub proof fn law_type_and_time(attrs: Seq<AttrView>, k: int)
    requires
        0 <= k < attrs.len(),
        attrs[k].attr_type == 0x30,
        forall|i: int| 0 <= i < k ==> (#[trigger] attrs[i]).attr_type != 0x30,
        attr::file_name_of(attrs[k].value) is Some,
    ensures
        ({
            let f = attr::file_name_of(attrs[k].value)->0;
            &&& inode::type_and_time(attrs).0 is Directory <==> f.flags as int / pow(2, 28) % 2 == 1
            &&& inode::type_and_time(attrs).0 is Regular <==> f.flags as int / pow(2, 28) % 2 == 0
            &&& inode::type_and_time(attrs).1 == f.mtime
        }),
{
    lemma_first_of(attrs, 0x30, 0, k);
    lemma_bit_28((attr::file_name_of(attrs[k].value)->0).flags);
}

proof fn lemma_first_of(attrs: Seq<AttrView>, t: u32, i: int, k: int)
    requires
        0 <= i <= k < attrs.len(),
        attrs[k].attr_type == t,
        forall|j: int| i <= j < k ==> (#[trigger] attrs[j]).attr_type != t,
    ensures
        inode::first_of(attrs, t, i) == Some(attrs[k]),
    decreases k - i,
{
    if i < k {
        lemma_first_of(attrs, t, i + 1, k);
    }
}

/// The entry that is found under a name is the first with that name, whatever the case of its
/// letters.
pub proof fn law_first_of_the_name(
    entries: Seq<IndexEntryView>,
    name: Seq<char>,
    i: int,
    k: int,
)
    requires
        0 <= i <= k < entries.len(),
        text::lower(entries[k].name) == text::lower(name),
        forall|j: int|
            i <= j < k ==> text::lower((#[trigger] entries[j]).name) != text::lower(name),
    ensures
        inode::entry_named(entries, name, i) == Some(entries[k]),
    decreases k - i,
{
    if i < k {
        law_first_of_the_name(entries, name, i + 1, k);
    }
}

/// A name that no entry has is not found.
pub proof fn law_no_entry_of_the_name(entries: Seq<IndexEntryView>, name: Seq<char>, i: int)
    requires
        0 <= i,
        forall|j: int|
            i <= j < entries.len() ==> text::lower((#[trigger] entries[j]).name) != text::lower(
                name,
            ),
    ensures
        inode::entry_named(entries, name, i) is None,
    decreases entries.len() - i,
{
    if i < entries.len() {
        law_no_entry_of_the_name(entries, name, i + 1);
    }
}

/// What is read of bytes: as many as are wanted and there are, from the place on.
pub proof fn law_part_of_a_value(v: Seq<u8>, offset: int, len: int)
    requires
        0 <= offset,
        0 <= len,
    ensures
        offset + len <= v.len() ==> inode::part_of(v, offset, len) == v.skip(offset).take(len),
        offset <= v.len() < offset + len ==> inode::part_of(v, offset, len) == v.skip(offset),
        v.len() < offset ==> inode::part_of(v, offset, len).len() == 0,
{
    if offset + len <= v.len() {
        assert(inode::part_of(v, offset, len) =~= v.skip(offset).take(len));
    } else if offset <= v.len() {
        assert(inode::part_of(v, offset, len) =~= v.skip(offset));
    }
}

/// The first record of the table stands in the cluster that the boot sector names.
pub proof fn law_first_record(disk: spec_fn(int) -> u8, b: BootSector, i: int)
    requires
        0 <= i < b.record_size,
    ensures
        mount::first_record(disk, b).len() == b.record_size,
        mount::first_record(disk, b)[i] == disk(b.mft_lcn * (512 * b.sectors_per_cluster) + i),
{
    assert(b.mft_lcn * (512 * b.sectors_per_cluster) == b.mft_lcn * b.sectors_per_cluster * 512)
        by (nonlinear_arith);
}

/// The runs of the table are those of the first unnamed data attribute of its first record
/// that stands outside of it.
pub proof fn law_data_of_the_table(attrs: Seq<AttrView>, i: int, k: int)
    requires
        0 <= i <= k < attrs.len(),
        attrs[k].attr_type == 0x80,
        attrs[k].name is None,
        !attrs[k].resident,
        forall|j: int|
            i <= j < k ==> (#[trigger] attrs[j]).attr_type != 0x80 || attrs[j].name is Some
                || attrs[j].resident,
    ensures
        mount::mft_data(attrs, i) == Some(attrs[k]),
    decreases k - i,
{
    if i < k {
        law_data_of_the_table(attrs, i + 1, k);
    }
}

/// The root directory is the fifth record.
pub proof fn law_root_record()
    ensures
        mount::ROOT_RECORD == 5,
{
}

/// The attribute of an index is the first of its type that is named `$I30`.
pub proof fn law_attribute_of_the_index(attrs: Seq<AttrView>, t: u32, k: int)
    requires
        0 <= k < attrs.len(),
        attrs[k].attr_type == t,
        attrs[k].name == Some("$I30"@),
        forall|i: int|
            0 <= i < k ==> (#[trigger] attrs[i]).attr_type != t || attrs[i].name != Some("$I30"@),
    ensures
        index::first_i30(attrs, t) == Some(attrs[k]),
    decreases k,
{
    if k > 0 {
        assert(attrs[0].attr_type != t || attrs[0].name != Some("$I30"@));
        let rest = attrs.skip(1);
        assert forall|i: int| 0 <= i < k - 1 implies (#[trigger] rest[i]).attr_type != t
            || rest[i].name != Some("$I30"@) by {
            assert(rest[i] == attrs[i + 1]);
        }
        law_attribute_of_the_index(rest, t, k - 1);
    }
}

/// The blocks of an index that are looked at are those that it has room for.
pub proof fn law_last_block(size: u64, block: u64)
    requires
        0 < block <= size,
        size / block <= 1_000_000,
    ensures
        (index::last_block(size, block) + 1) * block <= size < (index::last_block(size, block) + 2)
            * block,
{
    let (s, n) = (size as int, block as int);
    assert(1 <= s / n && s / n * n <= s < (s / n + 1) * n) by (nonlinear_arith)
        requires
            0 < n <= s,
    ;
}

/// The value of an attribute outside its record has as many bytes as it states, or as are
/// asked for at most; each is the byte of its runs.
pub proof fn law_value_of_an_attribute(
    disk: spec_fn(int) -> u8,
    b: BootSector,
    rec: Seq<u8>,
    a: AttrView,
    cap: u64,
    i: int,
)
    requires
        b.inv(),
        !a.resident,
        volume::attr_runs(rec, a) is Some,
        runs::sorted(volume::attr_runs(rec, a)->0),
        runs::disjoint(volume::attr_runs(rec, a)->0),
        volume::attr_value(disk, b, rec, a, cap) is Some,
        0 <= i < a.real_size,
        i < cap,
        forall|p: int|
            0 <= p < a.real_size && p < cap ==> runs::found(
                volume::attr_runs(rec, a)->0,
                #[trigger] (p / (512 * b.sectors_per_cluster)),
            ) is Some,
    ensures
        ({
            let v = volume::attr_value(disk, b, rec, a, cap)->0;
            &&& v.len() <= a.real_size && v.len() <= cap
            &&& v.len() == a.real_size || v.len() == cap
            &&& v[i] == runs::file_byte(disk, b, volume::attr_runs(rec, a)->0, i)
        }),
{
    let list = volume::attr_runs(rec, a)->0;
    let n = volume::value_len(a, cap);
    lemma_all_is_read(disk, b, list, 0, n);
    runs::law_content_is_the_file(disk, b, list, 0, n, i);
}

/// A small directory lists the entries that stand in its record, but for short names that
/// repeat a name before them.
pub proof fn law_small_directory(
    disk: spec_fn(int) -> u8,
    b: BootSector,
    rec: Seq<u8>,
    attrs: Seq<AttrView>,
    root: AttrView,
    first: int,
    end: int,
    at: Seq<int>,
    entries: Seq<IndexEntryView>,
    last: int,
)
    requires
        attr::attrs_of(rec) == Some(attrs),
        index::first_i30(attrs, 0x90) == Some(root),
        index::first_i30(attrs, 0xA0) is None,
        root.value.len() >= 24,
        holds_low_first(root.value, 16, 4, first),
        holds_low_first(root.value, 20, 4, end),
        first <= end <= root.value.len() - 16,
        at.len() == entries.len() + 1,
        at[0] == 16 + first,
        entries.len() < 1_000_000,
        forall|i: int|
            0 <= i < entries.len() ==> {
                &&& at[i] + 16 <= #[trigger] at[i + 1] <= 16 + end
                &&& holds_low_first(root.value, at[i] + 8, 2, at[i + 1] - at[i])
                &&& root.value[at[i] + 12] as int % 4 == 0
                &&& index::entry_at(root.value, at[i]) == Some(entries[i])
            },
        16 <= last <= 16 + end - at.last(),
        holds_low_first(root.value, at.last() + 8, 2, last),
        root.value[at.last() + 12] as int / 2 % 2 == 1,
    ensures
        index::listing(disk, b, rec) == Some(index::without_aliases(entries)),
{
    layout::lemma_powers();
    law_index_region(root.value, 16, first, end);
    let w = index::fresh_walk();
    law_leaf_is_listed(disk, b, None, root.value, at, entries, last, 16 + end, 0, w, 0);
    assert(w.out + entries.skip(0) =~= entries);
}

/// Data that is compressed or encrypted, which bits 0 and 14 of its flags say, is not served.
pub proof fn law_unsupported_data(rec: Seq<u8>, a: AttrView, p: Parts)
    requires
        a.flags as int % 2 == 1 || a.flags as int / 0x4000 % 2 == 1,
    ensures
        inode::with_data(rec, a, p) matches Some(q) && q.unsupported,
{
    let f = a.flags;
    assert(f % 2 == 1 || f / 0x4000u16 % 2 == 1 ==> f & 0x4001u16 != 0) by (bit_vector);
}

/// The parts of a file that lie in several attributes are put one behind the other; its size
/// is the largest that any of them states.
pub proof fn law_parts_of_a_file(rec: Seq<u8>, a: AttrView, p: Parts, list: Seq<Run>)
    requires
        a.flags as int % 2 == 0,
        a.flags as int / 0x4000 % 2 == 0,
        !a.resident,
        volume::attr_runs(rec, a) == Some(list),
    ensures
        inode::with_data(rec, a, p) matches Some(q) && q.runs == p.runs + list && q.size >= p.size
            && q.size >= a.real_size && (q.size == p.size || q.size == a.real_size) && q.init
            >= p.init && q.init >= a.init_size && (q.init == p.init || q.init == a.init_size)
            && q.unsupported == p.unsupported,
{
    let f = a.flags;
    assert(f % 2 == 0 && f / 0x4000u16 % 2 == 0 ==> f & 0x4001u16 == 0) by (bit_vector);
}

/// The root directory is record 5; attributes are told apart by the numbers of their types.
pub proof fn law_numbers_of_records()
    ensures
        crate::ntfs::mount::ROOT_RECORD == 5,
        crate::ntfs::attr::ATTR_ATTRIBUTE_LIST == 0x20,
        crate::ntfs::attr::ATTR_FILE_NAME == 0x30,
        crate::ntfs::attr::ATTR_DATA == 0x80,
        crate::ntfs::attr::ATTR_INDEX_ROOT == 0x90,
        crate::ntfs::attr::ATTR_INDEX_ALLOCATION == 0xA0,
        crate::ntfs::attr::ATTR_BITMAP == 0xB0,
        crate::ntfs::attr::ATTR_END == 0xFFFF_FFFF,
        crate::ntfs::attr::FLAGS_UNSUPPORTED == 0x4000 + 0x0001,
        crate::ntfs::attr::FILE_NAME_INDEX_PRESENT == 0x1000_0000,
        crate::ntfs::attr::MFT_REF_LIMIT == 0x1_0000 * 0x1_0000_0000,
{
}

/// What a volume may ask for is bounded: a read by 63 pages, a record by 256 attributes, a
/// directory by a million entries and as many blocks in sixteen levels with a bitmap of 16
/// MiB, a file by a million runs, and a list of attributes by one MiB.
pub proof fn law_limits_of_a_volume()
    ensures
        crate::ntfs::runs::MAX_READ_BYTES == 63 * 4096,
        crate::ntfs::runs::MAX_RUNS == 1_000_000,
        crate::ntfs::attr::MAX_ATTRS == 256,
        crate::ntfs::index::MAX_INDEX_ENTRIES == 1_000_000,
        crate::ntfs::index::MAX_INDEX_DEPTH == 16,
        crate::ntfs::index::MAX_INDEX_BLOCKS == 1_000_000,
        crate::ntfs::index::MAX_BITMAP_BYTES == 16 * 0x10_0000,
        crate::ntfs::inode::MAX_LIST_BYTES == 0x10_0000,
{
}

} // verus!
