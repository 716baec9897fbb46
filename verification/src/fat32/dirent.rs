//! Directory entries: short names, long names, and the fields of an entry.

use vstd::prelude::*;
use vstd::slice::slice_subrange;
use vstd::utf8;

use crate::bytes;
use crate::bytes::sub_vec;
use crate::collections;
use crate::collections::SfnSet;
use crate::drivers::rtc;
use crate::drivers::rtc::days_from_civil;
use crate::text;
use crate::text::{
    chars_of, decimal_digits, from_bytes, from_chars, from_utf16, same_text, to_lower_char,
    to_upper_byte, to_utf16,
};

verus! {

pub const ATTR_VOLUME_ID: u8 = 0x08;

pub const ATTR_DIRECTORY: u8 = 0x10;

pub const ATTR_ARCHIVE: u8 = 0x20;

pub const ATTR_LONG_NAME: u8 = 0x0F;

pub const DIR_DELETED: u8 = 0xE5;

pub const DIR_END: u8 = 0x00;

/// Most entries that a long name may take: their order numbers are 1 to 20.
pub const MAX_LFN_ENTRIES: usize = 20;

/// A file as its directory holds it: the entries of its long name, if it has one, and
/// the entry with its short name.
pub struct DirEntrySlot {
    pub vfat_entries: Vec<[u8; 32]>,
    pub sfn_entry: [u8; 32],
}

/// The offsets at which an entry keeps times and dates.
pub open spec fn is_timestamp_offset(i: int) -> bool {
    i == 0x0D || 0x0E <= i < 0x14 || 0x16 <= i < 0x1A
}

/// The entry with its times and dates cleared.
pub open spec fn without_timestamps(e: Seq<u8>) -> Seq<u8> {
    Seq::new(
        e.len(),
        |i: int|
            if is_timestamp_offset(i) {
                0u8
            } else {
                e[i]
            },
    )
}

/// Clears the times and dates of an entry.
pub fn set_timestamps(entry: &mut [u8; 32])
    ensures
        final(entry)@ == without_timestamps(old(entry)@),
{
    entry[0x0D] = 0;
    entry[0x0E] = 0;
    entry[0x0F] = 0;
    entry[0x10] = 0;
    entry[0x11] = 0;
    entry[0x12] = 0;
    entry[0x13] = 0;
    entry[0x16] = 0;
    entry[0x17] = 0;
    entry[0x18] = 0;
    entry[0x19] = 0;
    assert(entry@ =~= without_timestamps(old(entry)@));
}

/// The number of bytes of `s` before the spaces at its end.
pub open spec fn trimmed_len(s: Seq<u8>) -> int
    decreases s.len(),
{
    if s.len() == 0 {
        0
    } else if s.last() != 32 {
        s.len() as int
    } else {
        trimmed_len(s.drop_last())
    }
}

/// The number of bytes of `s` before the first space.
pub open spec fn word_len(s: Seq<u8>) -> int
    decreases s.len(),
{
    if s.len() == 0 || s[0] == 32 {
        0
    } else {
        1 + word_len(s.skip(1))
    }
}

fn trimmed_length(s: &[u8]) -> (r: usize)
    ensures
        r == trimmed_len(s@),
        r <= s@.len(),
{
    let mut n: usize = s.len();
    assert(s@.take(n as int) =~= s@);
    while n > 0 && s[n - 1] == 32
        invariant
            n <= s@.len(),
            trimmed_len(s@) == trimmed_len(s@.take(n as int)),
        decreases n,
    {
        assert(s@.take(n as int).drop_last() =~= s@.take(n - 1));
        n = n - 1;
    }
    n
}

fn word_length(s: &[u8]) -> (r: usize)
    ensures
        r == word_len(s@),
        r <= s@.len(),
{
    let mut n: usize = 0;
    assert(s@.skip(0) =~= s@);
    while n < s.len() && s[n] != 32
        invariant
            n <= s@.len(),
            word_len(s@) == n + word_len(s@.skip(n as int)),
        decreases s@.len() - n,
    {
        assert(s@.skip(n as int).skip(1) =~= s@.skip(n + 1));
        n = n + 1;
    }
    n
}

/// The small-letter text of bytes, one character for each.
pub open spec fn lower_text(s: Seq<u8>) -> Seq<char> {
    s.map_values(|b: u8| text::lower_of_byte(b))
}

/// The text of a short name: the stem, and the extension behind a dot where there is one.
pub open spec fn sfn_text(sfn: Seq<u8>) -> Seq<char> {
    let stem = sfn.subrange(0, trimmed_len(sfn.subrange(0, 8)));
    let ext_len = word_len(sfn.subrange(8, 11));
    if ext_len > 0 {
        lower_text(stem) + seq!['.'] + lower_text(sfn.subrange(8, 8 + ext_len))
    } else {
        lower_text(stem)
    }
}

/// Appends the small-letter text of `s`.
fn push_lower(out: &mut Vec<char>, s: &[u8])
    ensures
        final(out)@ == old(out)@ + lower_text(s@),
{
    let mut i: usize = 0;
    assert(out@ =~= old(out)@ + lower_text(s@.take(0)));
    while i < s.len()
        invariant
            i <= s@.len(),
            out@ == old(out)@ + lower_text(s@.take(i as int)),
        decreases s@.len() - i,
    {
        let ghost before = out@;
        out.push(to_lower_char(s[i]));
        assert(out@ =~= old(out)@ + lower_text(s@.take(i + 1)));
        i = i + 1;
    }
    assert(s@.take(i as int) =~= s@);
}

/// The text of a short name, in small letters.
pub fn decode_sfn(sfn: &[u8; 11]) -> (r: String)
    ensures
        r@ == sfn_text(sfn@),
{
    let all: &[u8] = sfn;
    let mut name: Vec<char> = Vec::new();
    let stem_end: usize = trimmed_length(slice_subrange(all, 0, 8));
    push_lower(&mut name, slice_subrange(all, 0, stem_end));
    let ext_len: usize = word_length(slice_subrange(all, 8, 11));
    assert(name@ =~= lower_text(sfn@.subrange(0, stem_end as int)));
    if ext_len > 0 {
        name.push('.');
        push_lower(&mut name, slice_subrange(all, 8, 8 + ext_len));
        assert(name@ =~= sfn_text(sfn@));
    }
    from_chars(&name)
}

/// `s` without the NUL characters at its end.
pub open spec fn without_nuls(s: Seq<char>) -> Seq<char>
    decreases s.len(),
{
    if s.len() > 0 && s.last() == '\0' {
        without_nuls(s.drop_last())
    } else {
        s
    }
}

/// The text of a volume label: the bytes before the spaces at the end, where they are
/// valid text, without NULs at the end.
pub open spec fn label_text(sfn: Seq<u8>) -> Seq<char> {
    let body = sfn.subrange(0, trimmed_len(sfn));
    if utf8::valid_utf8(body) {
        without_nuls(utf8::decode_utf8(body))
    } else {
        Seq::empty()
    }
}

/// The text of a volume label.
pub fn decode_volume_label(sfn: &[u8; 11]) -> (r: String)
    ensures
        r@ == label_text(sfn@),
{
    let all: &[u8] = sfn;
    let end: usize = trimmed_length(all);
    let body: Vec<u8> = sub_vec(all, 0, end);
    let label: String = match from_bytes(&body) {
        Some(s) => s,
        None => {
            return String::new();
        },
    };
    let mut chars: Vec<char> = chars_of(label.as_str());
    while chars.len() > 0 && chars[chars.len() - 1] == '\0'
        invariant
            without_nuls(label@) == without_nuls(chars@),
        decreases chars@.len(),
    {
        let ghost before = chars@;
        let _last = chars.pop();
        assert(chars@ =~= before.drop_last());
    }
    from_chars(&chars)
}

/// A short name made of a stem and an extension, in capital letters and padded with spaces.
pub open spec fn sfn_of(stem: Seq<u8>, ext: Seq<u8>) -> Seq<u8> {
    Seq::new(
        11,
        |i: int|
            if i < 8 {
                if i < stem.len() {
                    text::upper_byte(stem[i])
                } else {
                    32u8
                }
            } else if i - 8 < ext.len() {
                text::upper_byte(ext[i - 8])
            } else {
                32u8
            },
    )
}

/// Puts the stem, the suffix behind `stem_room` bytes, and the extension in place.
fn place_sfn(stem: &[u8], stem_room: usize, suffix: &Vec<u8>, ext: &[u8]) -> (r: [u8; 11])
    requires
        stem_room + suffix@.len() == 8,
    ensures
        r@ == sfn_with_suffix(stem@, suffix@, ext@),
{
    let mut sfn: [u8; 11] = [32u8; 11];
    let mut i: usize = 0;
    while i < 11
        invariant
            i <= 11,
            stem_room + suffix@.len() == 8,
            forall|k: int|
                0 <= k < i ==> #[trigger] sfn@[k] == sfn_with_suffix(stem@, suffix@, ext@)[k],
            forall|k: int| i <= k < 11 ==> sfn@[k] == 32,
        decreases 11 - i,
    {
        if i < stem_room {
            if i < stem.len() {
                sfn[i] = to_upper_byte(stem[i]);
            }
        } else if i < 8 {
            sfn[i] = suffix[i - stem_room];
        } else if i - 8 < ext.len() {
            sfn[i] = to_upper_byte(ext[i - 8]);
        }
        i = i + 1;
    }
    assert(sfn@ =~= sfn_with_suffix(stem@, suffix@, ext@));
    sfn
}

/// A short name whose stem is cut so that `suffix` fits behind it.
pub open spec fn sfn_with_suffix(stem: Seq<u8>, suffix: Seq<u8>, ext: Seq<u8>) -> Seq<u8> {
    let room = 8 - suffix.len();
    Seq::new(
        11,
        |i: int|
            if i < room {
                if i < stem.len() {
                    text::upper_byte(stem[i])
                } else {
                    32u8
                }
            } else if i < 8 {
                suffix[i - room]
            } else if i - 8 < ext.len() {
                text::upper_byte(ext[i - 8])
            } else {
                32u8
            },
    )
}

/// Makes a short name of a stem and an extension.
pub fn make_sfn_bytes(stem: &str, ext: &str) -> (r: [u8; 11])
    ensures
        r@ == sfn_of(utf8::encode_utf8(stem@), utf8::encode_utf8(ext@)),
{
    let none: Vec<u8> = Vec::new();
    let r = place_sfn(stem.as_bytes(), 8, &none, ext.as_bytes());
    assert(r@ =~= sfn_of(utf8::encode_utf8(stem@), utf8::encode_utf8(ext@)));
    r
}

/// The place of the last dot among the first `n` bytes, or -1.
pub open spec fn last_dot(b: Seq<u8>, n: int) -> int
    decreases n,
{
    if n <= 0 {
        -1
    } else if b[n - 1] == 46 {
        n - 1
    } else {
        last_dot(b, n - 1)
    }
}

fn find_last_dot(b: &[u8]) -> (r: Option<usize>)
    ensures
        match r {
            Some(i) => i == last_dot(b@, b@.len() as int) && i < b@.len(),
            None => last_dot(b@, b@.len() as int) == -1,
        },
{
    let mut n: usize = b.len();
    while n > 0
        invariant
            n <= b@.len(),
            last_dot(b@, b@.len() as int) == last_dot(b@, n as int),
        decreases n,
    {
        if b[n - 1] == 46 {
            return Some(n - 1);
        }
        n = n - 1;
    }
    None
}

/// What stands before the last dot.
pub open spec fn stem_of(b: Seq<u8>) -> Seq<u8> {
    let d = last_dot(b, b.len() as int);
    if d < 0 {
        b
    } else {
        b.take(d)
    }
}

/// What stands behind the last dot.
pub open spec fn ext_of(b: Seq<u8>) -> Seq<u8> {
    let d = last_dot(b, b.len() as int);
    if d < 0 {
        Seq::empty()
    } else {
        b.skip(d + 1)
    }
}

/// The `k`th short name that is tried for a long one: first the plain one, then those
/// with a tilde and a number.
pub open spec fn sfn_candidate(b: Seq<u8>, k: int) -> Seq<u8> {
    if k == 0 {
        sfn_of(stem_of(b), ext_of(b))
    } else {
        sfn_with_suffix(stem_of(b), seq![126u8] + text::decimal(k), ext_of(b))
    }
}

proof fn lemma_decimal_len(n: int, digits: int)
    requires
        0 <= n < text::pow10(digits),
        1 <= digits,
    ensures
        text::decimal(n).len() <= digits,
    decreases digits,
{
    if n >= 10 {
        assert(text::pow10(digits) == 10 * text::pow10(digits - 1));
        if digits == 1 {
            assert(text::pow10(0) == 1);
        } else {
            lemma_decimal_len(n / 10, digits - 1);
        }
    }
}

/// The short name for `name`: the first candidate that is not in use. There is none for
/// the empty name, nor where all candidates up to number 99999 are in use.
pub fn sfn_from_name(name: &str, existing_sfns: &SfnSet) -> (r: Option<[u8; 11]>)
    ensures
        ({
            let b = utf8::encode_utf8(name@);
            let used = collections::sfn_set(*existing_sfns);
            match r {
                Some(s) => name@.len() > 0 && !used.contains(s@) && exists|k: int|
                    0 <= k <= 99999 && s@ == #[trigger] sfn_candidate(b, k) && forall|j: int|
                        0 <= j < k ==> used.contains(#[trigger] sfn_candidate(b, j)),
                None => name@.len() == 0 || forall|j: int|
                    0 <= j <= 99999 ==> used.contains(#[trigger] sfn_candidate(b, j)),
            }
        }),
{
    if name.is_empty() {
        return None;
    }
    let all: &[u8] = name.as_bytes();
    let ghost b = all@;
    let (stem, ext): (&[u8], &[u8]) = match find_last_dot(all) {
        Some(dot) => {
            assert(all@.len() == all.len());
            assert(b.subrange(0, dot as int) =~= b.take(dot as int));
            assert(b.subrange(dot + 1, b.len() as int) =~= b.skip(dot + 1));
            (slice_subrange(all, 0, dot), slice_subrange(all, dot + 1, all.len()))
        },
        None => {
            assert(b.subrange(0, 0) =~= Seq::<u8>::empty());
            (all, slice_subrange(all, 0, 0))
        },
    };
    assert(stem@ =~= stem_of(b) && ext@ =~= ext_of(b));
    let none: Vec<u8> = Vec::new();
    let base: [u8; 11] = place_sfn(stem, 8, &none, ext);
    assert(base@ =~= sfn_candidate(b, 0));
    if !existing_sfns.contains(&base) {
        return Some(base);
    }
    let ghost used = collections::sfn_set(*existing_sfns);
    let mut counter: u32 = 1;
    while counter <= 99999
        invariant
            1 <= counter <= 100000,
            stem@ == stem_of(b),
            ext@ == ext_of(b),
            b == utf8::encode_utf8(name@),
            name@.len() > 0,
            used == collections::sfn_set(*existing_sfns),
            forall|j: int| 0 <= j < counter ==> used.contains(#[trigger] sfn_candidate(b, j)),
        decreases 100000 - counter,
    {
        let mut suffix: Vec<u8> = Vec::new();
        suffix.push(126u8);
        let mut digits: Vec<u8> = decimal_digits(counter as u64);
        proof {
            assert(text::pow10(5) == 100000) by {
                reveal_with_fuel(text::pow10, 6);
            }
            lemma_decimal_len(counter as int, 5);
        }
        suffix.append(&mut digits);
        assert(suffix@ =~= seq![126u8] + text::decimal(counter as int));
        let stem_avail: usize = 8 - suffix.len();
        let sfn: [u8; 11] = place_sfn(stem, stem_avail, &suffix, ext);
        assert(sfn@ == sfn_candidate(b, counter as int));
        if !existing_sfns.contains(&sfn) {
            return Some(sfn);
        }
        counter = counter + 1;
    }
    None
}

/// The checksum of the first `n` bytes of a short name: each byte is added, modulo 256,
/// to the sum so far, rotated right by one bit.
pub open spec fn checksum_of(sfn: Seq<u8>, n: int) -> int
    decreases n,
{
    if n <= 0 {
        0
    } else {
        let s = checksum_of(sfn, n - 1);
        (s / 2 + (s % 2) * 128 + sfn[n - 1]) % 256
    }
}

/// The checksum that ties the entries of a long name to their short name.
pub fn vfat_checksum(sfn: &[u8; 11]) -> (r: u8)
    ensures
        r == checksum_of(sfn@, 11),
{
    let mut sum: u8 = 0;
    let mut i: usize = 0;
    while i < 11
        invariant
            i <= 11,
            sum == checksum_of(sfn@, i as int),
        decreases 11 - i,
    {
        sum = (sum / 2 + (sum % 2) * 128).wrapping_add(sfn[i]);
        i = i + 1;
    }
    sum
}

/// A byte that a short name cannot hold.
pub open spec fn needs_long(b: u8) -> bool {
    b > 127 || b == 32
}

/// `name` does not fit a short name: its stem or its extension is too long, or it has
/// a space or a character outside ASCII.
pub open spec fn is_long_name(name: Seq<char>, b: Seq<u8>) -> bool {
    let d = last_dot(b, b.len() as int);
    &&& name != "."@
    &&& name != ".."@
    &&& {
        ||| (if d >= 0 {
            d
        } else {
            b.len() as int
        }) > 8
        ||| (if d >= 0 {
            b.len() - d - 1
        } else {
            0
        }) > 3
        ||| exists|i: int| 0 <= i < b.len() && needs_long(#[trigger] b[i])
    }
}

/// Whether a file of this name needs a long name besides its short one.
pub fn needs_vfat(name: &str) -> (r: bool)
    ensures
        r == is_long_name(name@, utf8::encode_utf8(name@)),
{
    if same_text(name, ".") || same_text(name, "..") {
        return false;
    }
    let b: &[u8] = name.as_bytes();
    let dot: Option<usize> = find_last_dot(b);
    let base_len: usize = match dot {
        Some(d) => d,
        None => b.len(),
    };
    let ext_len: usize = match dot {
        Some(d) => b.len() - d - 1,
        None => 0,
    };
    let mut odd = false;
    let mut i: usize = 0;
    while i < b.len()
        invariant
            i <= b@.len(),
            odd == exists|k: int| 0 <= k < i && needs_long(#[trigger] b@[k]),
        decreases b@.len() - i,
    {
        if b[i] > 127 || b[i] == 32 {
            odd = true;
            assert(needs_long(b@[i as int]));
        }
        i = i + 1;
    }
    base_len > 8 || ext_len > 3 || odd
}

/// A letter in lower case.
pub open spec fn is_small(b: u8) -> bool {
    97 <= b <= 122
}

/// A letter in upper case.
pub open spec fn is_capital(b: u8) -> bool {
    65 <= b <= 90
}

/// The bytes from `from` up to `to` have letters, and none of them is in upper case.
pub open spec fn in_lower_case(b: Seq<u8>, from: int, to: int) -> bool {
    &&& exists|i: int| from <= i < to && is_small(#[trigger] b[i])
    &&& forall|i: int| from <= i < to ==> !is_capital(#[trigger] b[i])
}

/// What an entry with a short name keeps of the case in which the name was given: whether
/// its stem, and whether its extension, is in lower case.
pub open spec fn case_flags(b: Seq<u8>) -> u8 {
    let d = last_dot(b, b.len() as int);
    let stem = in_lower_case(
        b,
        0,
        if d >= 0 {
            d
        } else {
            b.len() as int
        },
    );
    let ext = d >= 0 && in_lower_case(b, d + 1, b.len() as int);
    if stem && ext {
        0x18
    } else if stem {
        0x08
    } else if ext {
        0x10
    } else {
        0
    }
}

/// Whether the bytes from `from` up to `to` are in lower case.
fn is_lower_case(b: &[u8], from: usize, to: usize) -> (r: bool)
    requires
        from <= to <= b@.len(),
    ensures
        r == in_lower_case(b@, from as int, to as int),
{
    let mut small = false;
    let mut capital = false;
    let mut i: usize = from;
    while i < to
        invariant
            from <= i <= to <= b@.len(),
            small == exists|k: int| from <= k < i && is_small(#[trigger] b@[k]),
            capital == exists|k: int| from <= k < i && is_capital(#[trigger] b@[k]),
        decreases to - i,
    {
        if 97 <= b[i] && b[i] <= 122 {
            small = true;
            assert(is_small(b@[i as int]));
        }
        if 65 <= b[i] && b[i] <= 90 {
            capital = true;
            assert(is_capital(b@[i as int]));
        }
        i = i + 1;
    }
    small && !capital
}

/// What the entry of a file whose name fits a short name keeps of the case of the name.
pub fn nt_case_flags(name: &str) -> (r: u8)
    ensures
        r == case_flags(utf8::encode_utf8(name@)),
{
    let b: &[u8] = name.as_bytes();
    let dot: Option<usize> = find_last_dot(b);
    let stem = match dot {
        Some(d) => is_lower_case(b, 0, d),
        None => is_lower_case(b, 0, b.len()),
    };
    let n: usize = b.len();
    let ext = match dot {
        Some(d) => is_lower_case(b, d + 1, n),
        None => false,
    };
    if stem && ext {
        0x18
    } else if stem {
        0x08
    } else if ext {
        0x10
    } else {
        0
    }
}

/// Where an entry of a long name keeps unit `index` of its 13 units.
pub open spec fn vfat_offset(index: int) -> int {
    if index < 5 {
        1 + index * 2
    } else if index < 11 {
        14 + (index - 5) * 2
    } else {
        28 + (index - 11) * 2
    }
}

/// Unit `index` of an entry of a long name; 0 where there is no such unit.
pub open spec fn vfat_char(e: Seq<u8>, index: int) -> int {
    if 0 <= index < 13 {
        bytes::le16(e, vfat_offset(index))
    } else {
        0
    }
}

/// Unit `index` of an entry of a long name.
pub fn get_vfat_char(entry: &[u8; 32], index: usize) -> (r: u16)
    ensures
        r == vfat_char(entry@, index as int),
{
    if index < 5 {
        bytes::read_le_u16(entry, 1 + index * 2)
    } else if index < 11 {
        bytes::read_le_u16(entry, 14 + (index - 5) * 2)
    } else if index < 13 {
        bytes::read_le_u16(entry, 28 + (index - 11) * 2)
    } else {
        0
    }
}

/// The entry with unit `index` set; unchanged where there is no such unit.
pub open spec fn with_vfat_char(e: Seq<u8>, index: int, c: int) -> Seq<u8> {
    if 0 <= index < 13 {
        bytes::splice(e, vfat_offset(index), bytes::le16_bytes(c))
    } else {
        e
    }
}

/// Sets unit `index` of an entry of a long name.
pub fn set_vfat_char(entry: &mut [u8; 32], index: usize, c: u16)
    ensures
        final(entry)@ == with_vfat_char(old(entry)@, index as int, c as int),
{
    if index < 13 {
        let off: usize = if index < 5 {
            1 + index * 2
        } else if index < 11 {
            14 + (index - 5) * 2
        } else {
            28 + (index - 11) * 2
        };
        entry[off] = (c % 0x100) as u8;
        entry[off + 1] = (c / 0x100) as u8;
        assert(entry@ =~= with_vfat_char(old(entry)@, index as int, c as int));
    }
}

/// A unit that was set reads back, and no other unit changes.
pub proof fn lemma_vfat_char_round_trip(e: Seq<u8>, index: int, c: int, other: int)
    requires
        e.len() == 32,
        0 <= index < 13,
        0 <= c < 0x1_0000,
    ensures
        vfat_char(with_vfat_char(e, index, c), index) == c,
        other != index ==> vfat_char(with_vfat_char(e, index, c), other) == vfat_char(e, other),
{
    bytes::lemma_le16_round_trip(e, vfat_offset(index), c);
}

/// The units of one entry of a long name, up to the first that is 0 or 0xFFFF, from
/// unit `j` on.
pub open spec fn entry_units(e: Seq<u8>, j: int) -> Seq<u16>
    decreases 13 - j,
{
    if j >= 13 || vfat_char(e, j) == 0 || vfat_char(e, j) == 0xFFFF {
        Seq::empty()
    } else {
        seq![vfat_char(e, j) as u16] + entry_units(e, j + 1)
    }
}

/// The entry is deleted, or its order number is none.
pub open spec fn is_void_entry(e: Seq<u8>) -> bool {
    e[0] == DIR_DELETED || e[0] % 32 == 0
}

/// The bytes of entries.
pub open spec fn entry_views(v: Seq<[u8; 32]>) -> Seq<Seq<u8>> {
    v.map_values(|e: [u8; 32]| e@)
}

/// The units of the entries of a long name, last entry first.
pub open spec fn name_units(entries: Seq<Seq<u8>>) -> Seq<u16>
    decreases entries.len(),
{
    if entries.len() == 0 {
        Seq::empty()
    } else {
        let e = entries.last();
        let rest = name_units(entries.drop_last());
        if is_void_entry(e) {
            rest
        } else {
            entry_units(e, 0) + rest
        }
    }
}

/// The long name that the entries hold.
pub fn decode_vfat_name(entries: &Vec<[u8; 32]>) -> (r: String)
    ensures
        r@ == text::utf16_lossy(name_units(entry_views(entries@))),
{
    let mut units: Vec<u16> = Vec::new();
    let mut n: usize = entries.len();
    let ghost all = entry_views(entries@);
    assert(all.take(n as int) =~= all);
    while n > 0
        invariant
            n <= entries@.len(),
            all == entry_views(entries@),
            name_units(entry_views(entries@)) == units@ + name_units(entry_views(entries@).take(n as int)),
        decreases n,
    {
        let entry: [u8; 32] = entries[n - 1];
        let ghost before = units@;
        let ghost head = all.take(n as int);
        assert(head.drop_last() =~= all.take(n - 1));
        assert(head.last() == entry@);
        if !(entry[0] == DIR_DELETED || entry[0] % 32 == 0) {
            let mut j: usize = 0;
            let mut going = true;
            while j < 13 && going
                invariant
                    j <= 13,
                    going ==> before + entry_units(entry@, 0) == units@ + entry_units(
                        entry@,
                        j as int,
                    ),
                    !going ==> before + entry_units(entry@, 0) == units@,
                decreases 14 - j + (if going { 1int } else { 0int }),
            {
                let c: u16 = get_vfat_char(&entry, j);
                let ghost shown = units@;
                if c == 0 || c == 0xFFFF {
                    going = false;
                    assert(shown + entry_units(entry@, j as int) =~= shown);
                } else {
                    units.push(c);
                    assert(units@ + entry_units(entry@, j + 1) =~= shown + entry_units(
                        entry@,
                        j as int,
                    ));
                    j = j + 1;
                }
            }
            assert(units@ =~= before + entry_units(entry@, 0));
            assert(units@ + name_units(all.take(n - 1)) =~= before + name_units(head));
        }
        n = n - 1;
    }
    assert(units@ =~= name_units(entry_views(entries@)));
    from_utf16(&units)
}

/// How many entries the long name `name` takes.
pub open spec fn lfn_slots(name: Seq<char>) -> int {
    ((text::utf16(name).len() + 12) / 13) as int
}

/// How many entries the long name `name` takes.
pub fn lfn_slot_count(name: &str) -> (r: usize)
    ensures
        r == lfn_slots(name@),
{
    let n: usize = to_utf16(name).len();
    n / 13 + (if n % 13 == 0 {
        0usize
    } else {
        1usize
    })
}

/// The entry of a long name that holds the 13 units from `start` on; what is behind the
/// end is 0xFFFF.
pub open spec fn is_vfat_entry(
    e: Seq<u8>,
    units: Seq<u16>,
    start: int,
    order: u8,
    checksum: u8,
) -> bool {
    &&& e.len() == 32
    &&& e[0] == order
    &&& e[11] == ATTR_LONG_NAME
    &&& e[12] == 0
    &&& e[13] == checksum
    &&& e[26] == 0
    &&& e[27] == 0
    &&& forall|j: int|
        0 <= j < 13 ==> #[trigger] vfat_char(e, j) == (if start + j < units.len() {
            units[start + j] as int
        } else {
            0xFFFF
        })
}

/// The order number of part `i` of `needed`: the first part has the highest, and its
/// bit 6 is set.
pub open spec fn vfat_order(needed: int, i: int) -> u8 {
    let ord = ((needed - i) % 256) as u8;
    if i == 0 {
        ord | 0x40u8
    } else {
        ord
    }
}

fn make_vfat_entry(units: &Vec<u16>, start: usize, order: u8, checksum: u8) -> (r: [u8; 32])
    requires
        start < units@.len(),
    ensures
        is_vfat_entry(r@, units@, start as int, order, checksum),
{
    let mut entry: [u8; 32] = [0u8; 32];
    entry[0] = order;
    entry[11] = ATTR_LONG_NAME;
    entry[12] = 0;
    entry[13] = checksum;
    let mut j: usize = 0;
    while j < 13
        invariant
            j <= 13,
            start < units@.len(),
            entry@[0] == order,
            entry@[11] == ATTR_LONG_NAME,
            entry@[12] == 0,
            entry@[13] == checksum,
            entry@[26] == 0,
            entry@[27] == 0,
            forall|k: int|
                0 <= k < j ==> #[trigger] vfat_char(entry@, k) == (if start + k < units@.len() {
                    units@[start + k] as int
                } else {
                    0xFFFF
                }),
        decreases 13 - j,
    {
        let ghost before = entry@;
        let left: usize = units.len() - start;
        let c: u16 = if j < left {
            units[start + j]
        } else {
            0xFFFF
        };
        set_vfat_char(&mut entry, j, c);
        proof {
            assert forall|k: int| 0 <= k < j + 1 implies #[trigger] vfat_char(entry@, k) == (
            if start + k < units@.len() {
                units@[start + k] as int
            } else {
                0xFFFF
            }) by {
                lemma_vfat_char_round_trip(before, j as int, c as int, k);
            }
        }
        j = j + 1;
    }
    entry
}

/// `entries` hold the long name of `units`, the part that holds the beginning last.
pub open spec fn is_vfat_name(entries: Seq<Seq<u8>>, units: Seq<u16>, checksum: u8) -> bool {
    let needed = (units.len() + 12) / 13;
    &&& entries.len() == needed
    &&& forall|i: int|
        0 <= i < needed ==> is_vfat_entry(
            #[trigger] entries[needed - 1 - i],
            units,
            i * 13,
            vfat_order(needed as int, i),
            checksum,
        )
}

/// The entries of the long name `name`, in the order in which a directory holds them.
pub fn encode_vfat_entries(name: &str, checksum: u8) -> (r: Vec<[u8; 32]>)
    ensures
        is_vfat_name(entry_views(r@), text::utf16(name@), checksum),
{
    let units: Vec<u16> = to_utf16(name);
    let n: usize = units.len();
    let needed: usize = n / 13 + (if n % 13 == 0 {
        0usize
    } else {
        1usize
    });
    let mut entries: Vec<[u8; 32]> = Vec::new();
    let mut left: usize = needed;
    while left > 0
        invariant
            left <= needed,
            n == units@.len(),
            needed == (units@.len() + 12) / 13,
            entries@.len() == needed - left,
            forall|i: int|
                left <= i < needed ==> is_vfat_entry(
                    (#[trigger] entries@[needed - 1 - i])@,
                    units@,
                    i * 13,
                    vfat_order(needed as int, i),
                    checksum,
                ),
        decreases left,
    {
        let i: usize = left - 1;
        let ord: u8 = ((needed - i) % 256) as u8;
        let order: u8 = if i == 0 {
            ord | 0x40u8
        } else {
            ord
        };
        let ghost before = entries@;
        let e: [u8; 32] = make_vfat_entry(&units, i * 13, order, checksum);
        entries.push(e);
        proof {
            assert forall|k: int| i <= k < needed implies is_vfat_entry(
                (#[trigger] entries@[needed - 1 - k])@,
                units@,
                k * 13,
                vfat_order(needed as int, k),
                checksum,
            ) by {
                if k > i {
                    assert(entries@[needed - 1 - k] == before[needed - 1 - k]);
                }
            }
        }
        left = left - 1;
    }
    entries
}

/// The units of a part of a long name.
proof fn lemma_entry_units(e: Seq<u8>, units: Seq<u16>, start: int, order: u8, ck: u8, j: int)
    requires
        is_vfat_entry(e, units, start, order, ck),
        0 <= start,
        0 <= j <= 13,
        start + j <= units.len(),
        forall|k: int| 0 <= k < units.len() ==> (#[trigger] units[k]) != 0 && units[k] != 0xFFFF,
    ensures
        entry_units(e, j) == units.subrange(
            start + j,
            if start + 13 <= units.len() {
                start + 13
            } else {
                units.len() as int
            },
        ),
    decreases 13 - j,
{
    let end = if start + 13 <= units.len() {
        start + 13
    } else {
        units.len() as int
    };
    if j < 13 && start + j < units.len() {
        lemma_entry_units(e, units, start, order, ck, j + 1);
        assert(vfat_char(e, j) == units[start + j]);
        assert(units.subrange(start + j, end) =~= seq![units[start + j]] + units.subrange(
            start + j + 1,
            end,
        ));
    } else {
        if j < 13 {
            assert(vfat_char(e, j) == 0xFFFF);
        }
        assert(units.subrange(start + j, end) =~= Seq::<u16>::empty());
    }
}

proof fn lemma_name_units(entries: Seq<Seq<u8>>, units: Seq<u16>, ck: u8, n: int)
    requires
        is_vfat_name(entries, units, ck),
        0 <= n <= entries.len() <= 20,
        forall|k: int| 0 <= k < units.len() ==> (#[trigger] units[k]) != 0 && units[k] != 0xFFFF,
    ensures
        name_units(entries.take(n)) == units.skip(
            if (entries.len() - n) * 13 <= units.len() {
                (entries.len() - n) * 13
            } else {
                units.len() as int
            },
        ),
    decreases n,
{
    let needed = entries.len() as int;
    let part = entries.take(n);
    if n > 0 {
        lemma_name_units(entries, units, ck, n - 1);
        assert(part.drop_last() =~= entries.take(n - 1));
        let i = needed - n;
        let e = entries[needed - 1 - i];
        assert(part.last() == e);
        assert(is_vfat_entry(e, units, i * 13, vfat_order(needed, i), ck));
        let ord = (needed - i) as u8;
        assert(1 <= ord <= 20);
        assert((ord | 0x40u8) % 32 != 0 && (ord | 0x40u8) != 0xE5) by (bit_vector)
            requires
                1 <= ord <= 20,
        ;
        assert(!is_void_entry(e));
        lemma_entry_units(e, units, i * 13, vfat_order(needed, i), ck, 0);
        let from = i * 13;
        let to = if from + 13 <= units.len() {
            from + 13
        } else {
            units.len() as int
        };
        assert(units.subrange(from, to) + units.skip(to) =~= units.skip(from));
    } else {
        assert(part =~= Seq::<Seq<u8>>::empty());
        assert(units.skip(units.len() as int) =~= Seq::<u16>::empty());
    }
}

/// A long name of at most 20 entries, none of whose units is 0 or 0xFFFF, reads back.
pub proof fn law_vfat_name_round_trip(name: Seq<char>, entries: Seq<Seq<u8>>, checksum: u8)
    requires
        is_vfat_name(entries, text::utf16(name), checksum),
        lfn_slots(name) <= MAX_LFN_ENTRIES,
        forall|k: int|
            0 <= k < text::utf16(name).len() ==> (#[trigger] text::utf16(name)[k]) != 0
                && text::utf16(name)[k] != 0xFFFF,
    ensures
        text::utf16_lossy(name_units(entries)) == name,
{
    let units = text::utf16(name);
    let n = entries.len() as int;
    lemma_name_units(entries, units, checksum, n);
    assert(entries.take(n) =~= entries);
    assert(units.skip(0) =~= units);
    text::lemma_utf16_round_trip(name);
}

/// The first cluster that an entry names.
pub open spec fn entry_cluster(e: Seq<u8>) -> int {
    bytes::le16(e, 0x14) * 0x1_0000 + bytes::le16(e, 0x1A)
}

/// The first cluster that an entry names.
pub fn first_clus_from_entry(entry: &[u8; 32]) -> (r: u32)
    ensures
        r == entry_cluster(entry@),
{
    let hi: u16 = bytes::read_le_u16(entry, 0x14);
    let lo: u16 = bytes::read_le_u16(entry, 0x1A);
    hi as u32 * 0x1_0000 + lo as u32
}

/// The entry with `c` as its first cluster.
pub open spec fn with_cluster(e: Seq<u8>, c: int) -> Seq<u8> {
    bytes::splice(
        bytes::splice(e, 0x14, bytes::le16_bytes(c / 0x1_0000)),
        0x1A,
        bytes::le16_bytes(c % 0x1_0000),
    )
}

/// Sets the first cluster of an entry.
pub fn set_first_clus_in_entry(entry: &mut [u8; 32], cluster: u32)
    ensures
        final(entry)@ == with_cluster(old(entry)@, cluster as int),
{
    let hi: u32 = cluster / 0x1_0000;
    let lo: u32 = cluster % 0x1_0000;
    entry[0x14] = (hi % 0x100) as u8;
    entry[0x15] = (hi / 0x100) as u8;
    entry[0x1A] = (lo % 0x100) as u8;
    entry[0x1B] = (lo / 0x100) as u8;
    assert(entry@ =~= with_cluster(old(entry)@, cluster as int));
}

/// The file size that an entry states.
pub open spec fn entry_size(e: Seq<u8>) -> int {
    bytes::le32(e, 0x1C)
}

/// The file size that an entry states.
pub fn file_size_from_entry(entry: &[u8; 32]) -> (r: u32)
    ensures
        r == entry_size(entry@),
{
    bytes::read_le_u32(entry, 0x1C)
}

/// The entry with `size` as its file size.
pub open spec fn with_size(e: Seq<u8>, size: int) -> Seq<u8> {
    bytes::splice(e, 0x1C, bytes::le32_bytes(size))
}

/// Sets the file size of an entry.
pub fn set_file_size_in_entry(entry: &mut [u8; 32], size: u32)
    ensures
        final(entry)@ == with_size(old(entry)@, size as int),
{
    entry[0x1C] = (size % 0x100) as u8;
    entry[0x1D] = (size / 0x100 % 0x100) as u8;
    entry[0x1E] = (size / 0x1_0000 % 0x100) as u8;
    entry[0x1F] = (size / 0x100_0000) as u8;
    assert(entry@ =~= with_size(old(entry)@, size as int));
}

/// The first cluster and the size that were set read back, and neither touches the
/// other, the name or the attributes.
pub proof fn lemma_entry_fields(e: Seq<u8>, c: int, size: int)
    requires
        e.len() == 32,
        0 <= c < 0x1_0000_0000,
        0 <= size < 0x1_0000_0000,
    ensures
        entry_cluster(with_cluster(e, c)) == c,
        entry_size(with_size(e, size)) == size,
        entry_size(with_cluster(e, c)) == entry_size(e),
        entry_cluster(with_size(e, size)) == entry_cluster(e),
        with_cluster(e, c).take(12) == e.take(12),
        with_size(e, size).take(12) == e.take(12),
        without_timestamps(e).take(12) == e.take(12),
        entry_cluster(without_timestamps(e)) == entry_cluster(e),
        entry_size(without_timestamps(e)) == entry_size(e),
{
    let a = bytes::splice(e, 0x14, bytes::le16_bytes(c / 0x1_0000));
    bytes::lemma_le16_round_trip(e, 0x14, c / 0x1_0000);
    bytes::lemma_le16_round_trip(a, 0x1A, c % 0x1_0000);
    bytes::lemma_le32_round_trip(e, 0x1C, size);
    assert(with_cluster(e, c).take(12) =~= e.take(12));
    assert(with_size(e, size).take(12) =~= e.take(12));
    assert(without_timestamps(e).take(12) =~= e.take(12));
}

/// When the file of an entry was last written, in seconds since 1970; 0 where the entry
/// holds no date.
pub open spec fn entry_mtime(e: Seq<u8>) -> int {
    let time = bytes::le16(e, 0x16);
    let date = bytes::le16(e, 0x18);
    let (y, m, d) = (1980 + date / 512, date / 32 % 16, date % 32);
    if m == 0 || m > 12 || d == 0 {
        0
    } else {
        rtc::days_since_epoch(y, m, d) * 86400 + time / 2048 * 3600 + time / 32 % 64 * 60 + time
            % 32 * 2
    }
}

/// When the file of an entry was last written, in seconds since 1970; 0 where the entry
/// holds no date.
pub fn mtime_from_entry(entry: &[u8; 32]) -> (r: u64)
    ensures
        r == entry_mtime(entry@),
{
    let time: u64 = bytes::read_le_u16(entry, 0x16) as u64;
    let date: u64 = bytes::read_le_u16(entry, 0x18) as u64;
    let year: u64 = 1980 + date / 512;
    let month: u64 = date / 32 % 16;
    let day: u64 = date % 32;
    if month == 0 || month > 12 || day == 0 {
        return 0;
    }
    let days: u64 = days_from_civil(year, month, day);
    days * 86400 + time / 2048 * 3600 + time / 32 % 64 * 60 + time % 32 * 2
}

} // verus!
