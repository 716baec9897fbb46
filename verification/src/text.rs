//! Text: letter case within ASCII, and UTF-16.

use vstd::prelude::*;
use vstd::string::StrSliceExecFns;
use vstd::utf8;

verus! {

/// `c` in lower case, where it is a capital letter of ASCII.
pub open spec fn lower_char(c: char) -> char {
    if 'A' <= c <= 'Z' {
        ((c as int) + 32) as char
    } else {
        c
    }
}

/// `s` with the capital letters of ASCII in lower case.
pub open spec fn lower(s: Seq<char>) -> Seq<char> {
    s.map_values(|c: char| lower_char(c))
}

fn lower_of(c: char) -> (r: char)
    ensures
        r == lower_char(c),
{
    if 'A' <= c && c <= 'Z' {
        (c as u8 + 32) as char
    } else {
        c
    }
}

/// The text with the capital letters of ASCII in lower case.
pub(crate) fn to_lower(s: &str) -> (r: String)
    ensures
        r@ == lower(s@),
{
    let chars: Vec<char> = chars_of(s);
    let mut out: String = String::new();
    let mut i: usize = 0;
    assert(out@ =~= lower(s@).take(0));
    while i < chars.len()
        invariant
            i <= chars@.len(),
            chars@ == s@,
            out@ == lower(s@).take(i as int),
        decreases chars@.len() - i,
    {
        out.push(lower_of(chars[i]));
        i = i + 1;
        assert(out@ =~= lower(s@).take(i as int));
    }
    assert(lower(s@).take(i as int) =~= lower(s@));
    out
}

/// The two are equal once the capital letters of ASCII are made small.
pub(crate) fn same_ignoring_case(a: &str, b: &str) -> (r: bool)
    ensures
        r == (lower(a@) == lower(b@)),
{
    let x: Vec<char> = chars_of(a);
    let y: Vec<char> = chars_of(b);
    if x.len() != y.len() {
        assert(lower(a@).len() != lower(b@).len());
        return false;
    }
    let mut i: usize = 0;
    while i < x.len()
        invariant
            i <= x@.len(),
            x@ == a@,
            y@ == b@,
            x@.len() == y@.len(),
            forall|k: int| 0 <= k < i ==> #[trigger] lower(a@)[k] == lower(b@)[k],
        decreases x@.len() - i,
    {
        if lower_of(x[i]) != lower_of(y[i]) {
            assert(lower(a@)[i as int] != lower(b@)[i as int]);
            return false;
        }
        i = i + 1;
    }
    assert(lower(a@) =~= lower(b@));
    true
}

/// The units of one character.
pub open spec fn utf16_units(c: char) -> Seq<u16> {
    let v = (c as u32) as int;
    if v < 0x1_0000 {
        seq![v as u16]
    } else {
        seq![
            (0xD800 + (v - 0x1_0000) / 0x400) as u16,
            (0xDC00 + (v - 0x1_0000) % 0x400) as u16,
        ]
    }
}

/// `s` in UTF-16.
pub open spec fn utf16(s: Seq<char>) -> Seq<u16>
    decreases s.len(),
{
    if s.len() == 0 {
        Seq::empty()
    } else {
        utf16_units(s[0]) + utf16(s.skip(1))
    }
}

pub open spec fn is_high_surrogate(u: u16) -> bool {
    0xD800 <= u < 0xDC00
}

pub open spec fn is_low_surrogate(u: u16) -> bool {
    0xDC00 <= u < 0xE000
}

/// The text of UTF-16 units, in which a surrogate without its other half becomes the
/// replacement character.
pub open spec fn utf16_lossy(u: Seq<u16>) -> Seq<char>
    decreases u.len(),
{
    if u.len() == 0 {
        Seq::empty()
    } else if !is_high_surrogate(u[0]) && !is_low_surrogate(u[0]) {
        seq![(u[0] as u32) as char] + utf16_lossy(u.skip(1))
    } else if is_high_surrogate(u[0]) && u.len() >= 2 && is_low_surrogate(u[1]) {
        seq![((0x1_0000 + (u[0] - 0xD800) * 0x400 + (u[1] - 0xDC00)) as u32) as char] + utf16_lossy(
            u.skip(2),
        )
    } else {
        seq!['\u{FFFD}'] + utf16_lossy(u.skip(1))
    }
}

/// Text survives the way to UTF-16 and back.
pub proof fn lemma_utf16_round_trip(s: Seq<char>)
    ensures
        utf16_lossy(utf16(s)) == s,
    decreases s.len(),
{
    if s.len() > 0 {
        lemma_utf16_round_trip(s.skip(1));
        lemma_utf16_first(s[0], utf16(s.skip(1)));
        assert(seq![s[0]] + s.skip(1) =~= s);
    }
}

proof fn lemma_utf16_first(c: char, rest: Seq<u16>)
    ensures
        utf16_lossy(utf16_units(c) + rest) == seq![c] + utf16_lossy(rest),
{
    let all = utf16_units(c) + rest;
    let v = c as u32;
    utf8::char_is_scalar(c);
    utf8::char_u32_cast(c, v);
    if v < 0x1_0000 {
        assert(all.skip(1) =~= rest);
        assert(all[0] == v);
    } else {
        assert(all.skip(2) =~= rest);
        assert(all[0] == 0xD800 + (v - 0x1_0000) / 0x400);
        assert(all[1] == 0xDC00 + (v - 0x1_0000) % 0x400);
    }
}

/// `String::from_utf16_lossy`: the text of the units, with the replacement character
/// for each surrogate that has no other half.
#[verifier::external_body]
pub(crate) fn from_utf16(units: &Vec<u16>) -> (r: String)
    ensures
        r@ == utf16_lossy(units@),
{
    String::from_utf16_lossy(units)
}

/// `str::encode_utf16`: the text in UTF-16.
#[verifier::external_body]
pub(crate) fn to_utf16(s: &str) -> (r: Vec<u16>)
    ensures
        r@ == utf16(s@),
{
    s.encode_utf16().collect()
}

/// `String::push`: one more character at the end.
pub assume_specification[ String::push ](s: &mut String, c: char)
    ensures
        final(s)@ == old(s)@.push(c),
;

/// The characters one after the other.
pub fn from_chars(v: &Vec<char>) -> (r: String)
    ensures
        r@ == v@,
{
    let mut s: String = String::new();
    let mut i: usize = 0;
    assert(s@ =~= v@.take(0));
    while i < v.len()
        invariant
            i <= v@.len(),
            s@ == v@.take(i as int),
        decreases v@.len() - i,
    {
        s.push(v[i]);
        i = i + 1;
        assert(s@ =~= v@.take(i as int));
    }
    assert(v@.take(i as int) =~= v@);
    s
}

/// The number is that of a character.
pub open spec fn is_char_code(c: u32) -> bool {
    c <= 0xD7FF || 0xE000 <= c <= 0x10FFFF
}

/// `char::from_u32`: the character with the number, where there is one.
#[verifier::external_body]
pub(crate) fn char_of(c: u32) -> (r: Option<char>)
    ensures
        match r {
            Some(x) => is_char_code(c) && x as u32 == c,
            None => !is_char_code(c),
        },
{
    char::from_u32(c)
}

/// `core::str::from_utf8`: the text that the bytes encode, where they do.
#[verifier::external_body]
pub(crate) fn from_bytes(v: &Vec<u8>) -> (r: Option<String>)
    ensures
        match r {
            Some(s) => utf8::valid_utf8(v@) && s@ == utf8::decode_utf8(v@),
            None => !utf8::valid_utf8(v@),
        },
{
    core::str::from_utf8(v).ok().map(String::from)
}

/// The text of bytes, in which what is no UTF-8 is replaced.
pub uninterp spec fn utf8_lossy(b: Seq<u8>) -> Seq<char>;

/// `String::from_utf8_lossy`: the text that the bytes encode, where they do. What
/// stands for bytes that encode nothing is not said.
#[verifier::external_body]
pub(crate) fn from_bytes_lossy(v: &Vec<u8>) -> (r: String)
    ensures
        r@ == utf8_lossy(v@),
        utf8::valid_utf8(v@) ==> r@ == utf8::decode_utf8(v@),
{
    String::from_utf8_lossy(v).into_owned()
}

/// The characters of a text.
pub fn chars_of(s: &str) -> (r: Vec<char>)
    ensures
        r@ == s@,
{
    let n: usize = s.unicode_len();
    let mut v: Vec<char> = Vec::new();
    let mut i: usize = 0;
    while i < n
        invariant
            i <= n,
            n == s@.len(),
            v@ == s@.take(i as int),
        decreases n - i,
    {
        v.push(s.get_char(i));
        i = i + 1;
    }
    assert(s@.take(n as int) =~= s@);
    v
}

/// A small letter of ASCII as a capital one; other bytes as they are.
pub open spec fn upper_byte(b: u8) -> u8 {
    if 97 <= b <= 122 {
        (b - 32) as u8
    } else {
        b
    }
}

pub fn to_upper_byte(b: u8) -> (r: u8)
    ensures
        r == upper_byte(b),
{
    if 97 <= b && b <= 122 {
        b - 32
    } else {
        b
    }
}

/// The character with the code `b`, where a capital letter of ASCII becomes a small one.
pub open spec fn lower_of_byte(b: u8) -> char {
    if 65 <= b <= 90 {
        ((b + 32) as u8) as char
    } else {
        b as char
    }
}

pub fn to_lower_char(b: u8) -> (r: char)
    ensures
        r == lower_of_byte(b),
{
    if 65 <= b && b <= 90 {
        (b + 32) as char
    } else {
        b as char
    }
}

/// The decimal digits of a number, as characters of ASCII.
pub open spec fn decimal(n: int) -> Seq<u8>
    decreases n,
{
    if n < 10 {
        seq![(48 + n) as u8]
    } else {
        decimal(n / 10).push((48 + n % 10) as u8)
    }
}

/// The decimal digits of a number.
pub fn decimal_digits(n: u64) -> (r: Vec<u8>)
    ensures
        r@ == decimal(n as int),
        1 <= r@.len() <= 20,
{
    let mut rev: Vec<u8> = Vec::new();
    let mut rest: u64 = n;
    assert(pow10(20) == 100_000_000_000_000_000_000int) by {
        reveal_with_fuel(pow10, 21);
    }
    while rest >= 10
        invariant
            decimal(n as int) == decimal(rest as int) + rev@.reverse(),
            rev@.len() <= 19,
            rest < pow10(20 - rev@.len()),
        decreases rest,
    {
        let ghost before = rev@;
        let d: u8 = 48 + (rest % 10) as u8;
        rev.push(d);
        proof {
            assert(rev@.reverse() =~= seq![d] + before.reverse());
            assert(decimal(rest as int) =~= decimal(rest as int / 10) + seq![d]);
            assert(decimal(rest as int) + before.reverse() =~= decimal(rest as int / 10)
                + rev@.reverse());
            if before.len() >= 19 {
                assert(pow10(20 - before.len()) == 10 * pow10(19 - before.len()));
                assert(pow10(1) == 10 * pow10(0));
            }
        }
        rest = rest / 10;
    }
    let ghost before = rev@;
    rev.push(48 + rest as u8);
    proof {
        assert(rev@.reverse() =~= decimal(rest as int) + before.reverse());
    }
    let mut out: Vec<u8> = Vec::new();
    let ghost digits = rev@.reverse();
    let total: usize = rev.len();
    while rev.len() > 0
        invariant
            out@.len() + rev@.len() == total,
            out@ + rev@.reverse() == digits,
        decreases rev@.len(),
    {
        let ghost prev = rev@;
        let ghost shown = out@;
        match rev.pop() {
            Some(d) => {
                out.push(d);
                proof {
                    assert(prev.reverse() =~= seq![d] + rev@.reverse());
                    assert(out@ + rev@.reverse() =~= shown + prev.reverse());
                }
            },
            None => {},
        }
    }
    assert(out@ =~= digits);
    out
}

pub open spec fn pow10(n: int) -> int
    decreases n,
{
    if n <= 0 {
        1
    } else {
        10 * pow10(n - 1)
    }
}

/// Whether two texts are the same.
pub fn same_text(a: &str, b: &str) -> (r: bool)
    ensures
        r == (a@ == b@),
{
    let x: &[u8] = a.as_bytes();
    let y: &[u8] = b.as_bytes();
    proof {
        utf8::encode_utf8_decode_utf8(a@);
        utf8::encode_utf8_decode_utf8(b@);
    }
    if x.len() != y.len() {
        return false;
    }
    let mut i: usize = 0;
    while i < x.len()
        invariant
            i <= x@.len(),
            x@.len() == y@.len(),
            x@ == utf8::encode_utf8(a@),
            y@ == utf8::encode_utf8(b@),
            forall|k: int| 0 <= k < i ==> x@[k] == y@[k],
        decreases x@.len() - i,
    {
        if x[i] != y[i] {
            return false;
        }
        i = i + 1;
    }
    assert(x@ =~= y@);
    true
}

} // verus!
