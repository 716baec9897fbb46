//! Numbers as the bytes that they are made of.

use vstd::arithmetic::div_mod::lemma_div_denominator;
use vstd::arithmetic::power::{lemma_pow_positive, pow};
use vstd::prelude::*;

verus! {

/// Byte `j` of the number `v`, where byte 0 is the lowest.
pub open spec fn byte_of(v: int, j: nat) -> int {
    v / pow(256, j) % 256
}

/// The lowest `k` bytes of the number `v`, low byte first.
pub open spec fn low_first(v: int, k: nat) -> Seq<u8> {
    Seq::new(k, |j: int| byte_of(v, j as nat) as u8)
}

/// The `k` bytes of `s` at `at` are those of the number `v`, low byte first.
pub open spec fn holds_low_first(s: Seq<u8>, at: int, k: nat, v: int) -> bool {
    0 <= v < pow(256, k) && forall|j: nat| j < k ==> s[at + j] == #[trigger] byte_of(v, j)
}

/// The `k` bytes of `s` at `at` are those of the number `v`, high byte first.
pub open spec fn holds_high_first(s: Seq<u8>, at: int, k: nat, v: int) -> bool {
    0 <= v < pow(256, k) && forall|j: nat| j < k ==> s[at + k - 1 - j] == #[trigger] byte_of(v, j)
}

/// The first powers of 256.
pub proof fn lemma_powers()
    ensures
        pow(256, 0) == 1,
        pow(256, 1) == 0x100,
        pow(256, 2) == 0x1_0000,
        pow(256, 3) == 0x100_0000,
        pow(256, 4) == 0x1_0000_0000,
        pow(256, 5) == 0x100_0000_0000,
        pow(256, 6) == 0x1_0000_0000_0000,
        pow(256, 7) == 0x100_0000_0000_0000,
        pow(256, 8) == 0x1_0000_0000_0000_0000,
{
    reveal_with_fuel(pow, 9);
}

/// A power of 256 and the next.
pub proof fn lemma_next_power(k: nat)
    ensures
        pow(256, k) > 0,
        pow(256, k + 1) == 256 * pow(256, k),
{
    lemma_pow_positive(256, k);
    reveal(pow);
}

/// The higher bytes of a number are those of what is left without the lowest.
pub proof fn lemma_higher_byte(v: int, j: nat)
    requires
        0 <= v,
    ensures
        byte_of(v, j + 1) == byte_of(v / 256, j),
        byte_of(v, 0) == v % 256,
{
    lemma_powers();
    lemma_next_power(j);
    lemma_div_denominator(v, 256, pow(256, j));
}

/// A number is known by its bytes.
pub proof fn lemma_same_bytes(v: int, w: int, k: nat)
    requires
        0 <= v < pow(256, k),
        0 <= w < pow(256, k),
        forall|j: nat| j < k ==> #[trigger] byte_of(v, j) == byte_of(w, j),
    ensures
        v == w,
    decreases k,
{
    lemma_powers();
    if k > 0 {
        lemma_next_power((k - 1) as nat);
        lemma_higher_byte(v, 0);
        lemma_higher_byte(w, 0);
        assert(byte_of(v, 0) == byte_of(w, 0));
        assert forall|j: nat| j < k - 1 implies #[trigger] byte_of(v / 256, j) == byte_of(
            w / 256,
            j,
        ) by {
            lemma_higher_byte(v, j);
            lemma_higher_byte(w, j);
            assert(byte_of(v, j + 1) == byte_of(w, j + 1));
        }
        lemma_same_bytes(v / 256, w / 256, (k - 1) as nat);
    }
}

/// The first bytes of a number.
pub proof fn lemma_first_bytes(v: int)
    ensures
        byte_of(v, 0) == v % 256,
        byte_of(v, 1) == v / 0x100 % 256,
        byte_of(v, 2) == v / 0x1_0000 % 256,
        byte_of(v, 3) == v / 0x100_0000 % 256,
        byte_of(v, 4) == v / 0x1_0000_0000 % 256,
        byte_of(v, 5) == v / 0x100_0000_0000 % 256,
        byte_of(v, 6) == v / 0x1_0000_0000_0000 % 256,
        byte_of(v, 7) == v / 0x100_0000_0000_0000 % 256,
{
    lemma_powers();
}

/// A byte before the bytes of a number is the lowest of a longer one.
pub proof fn lemma_low_longer(s: Seq<u8>, at: int, k: nat, w: int)
    requires
        holds_low_first(s, at + 1, k, w),
    ensures
        holds_low_first(s, at, k + 1, s[at] + 256 * w),
{
    let v = s[at] + 256 * w;
    lemma_next_power(k);
    assert(v / 256 == w && v % 256 == s[at]);
    assert forall|j: nat| j < k + 1 implies s[at + j] == #[trigger] byte_of(v, j) by {
        if j == 0 {
            lemma_higher_byte(v, 0);
        } else {
            let i = (j - 1) as nat;
            lemma_higher_byte(v, i);
            assert(s[at + 1 + i] == byte_of(w, i));
        }
    }
}

/// A byte behind the bytes of a number, high byte first, is the lowest of a longer one.
pub proof fn lemma_high_longer(s: Seq<u8>, at: int, k: nat, w: int)
    requires
        holds_high_first(s, at, k, w),
    ensures
        holds_high_first(s, at, k + 1, s[at + k] + 256 * w),
{
    let v = s[at + k] + 256 * w;
    lemma_next_power(k);
    assert(v / 256 == w && v % 256 == s[at + k]);
    assert forall|j: nat| j < k + 1 implies s[at + (k + 1) - 1 - j] == #[trigger] byte_of(v, j) by {
        if j == 0 {
            lemma_higher_byte(v, 0);
        } else {
            let i = (j - 1) as nat;
            lemma_higher_byte(v, i);
            assert(s[at + k - 1 - i] == byte_of(w, i));
        }
    }
}

/// What is read as a 16-bit number, low byte first, has the two bytes.
pub proof fn law_low_first_16(s: Seq<u8>, at: int)
    ensures
        holds_low_first(s, at, 2, crate::bytes::le16(s, at)),
{
    lemma_powers();
    lemma_low_longer(s, at + 1, 0, 0);
    lemma_low_longer(s, at, 1, s[at + 1] as int);
}

/// What is read as a 32-bit number, low byte first, has the four bytes.
pub proof fn law_low_first_32(s: Seq<u8>, at: int)
    ensures
        holds_low_first(s, at, 4, crate::bytes::le32(s, at)),
{
    law_low_first_16(s, at + 2);
    let a = crate::bytes::le16(s, at + 2);
    lemma_low_longer(s, at + 1, 2, a);
    lemma_low_longer(s, at, 3, s[at + 1] + 256 * a);
}

/// What is read as a 64-bit number, low byte first, has the eight bytes.
pub proof fn law_low_first_64(s: Seq<u8>, at: int)
    ensures
        holds_low_first(s, at, 8, crate::bytes::le64(s, at)),
{
    law_low_first_32(s, at + 4);
    let a = crate::bytes::le32(s, at + 4);
    lemma_low_longer(s, at + 3, 4, a);
    let b = s[at + 3] + 256 * a;
    lemma_low_longer(s, at + 2, 5, b);
    let c = s[at + 2] + 256 * b;
    lemma_low_longer(s, at + 1, 6, c);
    lemma_low_longer(s, at, 7, s[at + 1] + 256 * c);
}

/// What is read as a 32-bit number, high byte first, has the four bytes.
pub proof fn law_high_first_32(s: Seq<u8>, at: int)
    ensures
        holds_high_first(s, at, 4, crate::bytes::be32(s, at)),
{
    lemma_powers();
    lemma_high_longer(s, at, 0, 0);
    let a = s[at] as int;
    lemma_high_longer(s, at, 1, a);
    let b = s[at + 1] + 256 * a;
    lemma_high_longer(s, at, 2, b);
    lemma_high_longer(s, at, 3, s[at + 2] + 256 * b);
}

/// What is read as a 64-bit number, high byte first, has the eight bytes.
pub proof fn law_high_first_64(s: Seq<u8>, at: int)
    ensures
        holds_high_first(s, at, 8, crate::bytes::be64(s, at)),
{
    law_high_first_32(s, at);
    let a = crate::bytes::be32(s, at);
    lemma_high_longer(s, at, 4, a);
    let b = s[at + 4] + 256 * a;
    lemma_high_longer(s, at, 5, b);
    let c = s[at + 5] + 256 * b;
    lemma_high_longer(s, at, 6, c);
    lemma_high_longer(s, at, 7, s[at + 6] + 256 * c);
}

/// The bytes that a 16-bit and a 32-bit number are written as are its own.
pub proof fn law_written_low_first(v: int)
    requires
        0 <= v < 0x1_0000_0000,
    ensures
        crate::bytes::le32_bytes(v) == low_first(v, 4),
        v < 0x1_0000 ==> crate::bytes::le16_bytes(v) == low_first(v, 2),
{
    lemma_first_bytes(v);
    assert(crate::bytes::le32_bytes(v) =~= low_first(v, 4));
    if v < 0x1_0000 {
        assert(crate::bytes::le16_bytes(v) =~= low_first(v, 2));
    }
}

/// Where the bytes of a number stand, the number is read.
pub proof fn lemma_read_back(s: Seq<u8>, at: int, v: int)
    ensures
        holds_low_first(s, at, 2, v) ==> crate::bytes::le16(s, at) == v,
        holds_low_first(s, at, 4, v) ==> crate::bytes::le32(s, at) == v,
        holds_low_first(s, at, 8, v) ==> crate::bytes::le64(s, at) == v,
        holds_high_first(s, at, 4, v) ==> crate::bytes::be32(s, at) == v,
        holds_high_first(s, at, 8, v) ==> crate::bytes::be64(s, at) == v,
{
    law_low_first_16(s, at);
    law_low_first_32(s, at);
    law_low_first_64(s, at);
    law_high_first_32(s, at);
    law_high_first_64(s, at);
    if holds_low_first(s, at, 2, v) {
        lemma_low_unique(s, at, 2, v, crate::bytes::le16(s, at));
    }
    if holds_low_first(s, at, 4, v) {
        lemma_low_unique(s, at, 4, v, crate::bytes::le32(s, at));
    }
    if holds_low_first(s, at, 8, v) {
        lemma_low_unique(s, at, 8, v, crate::bytes::le64(s, at));
    }
    if holds_high_first(s, at, 4, v) {
        lemma_high_unique(s, at, 4, v, crate::bytes::be32(s, at));
    }
    if holds_high_first(s, at, 8, v) {
        lemma_high_unique(s, at, 8, v, crate::bytes::be64(s, at));
    }
}

/// Bytes, low byte first, are those of one number.
pub proof fn lemma_low_unique(s: Seq<u8>, at: int, k: nat, v: int, w: int)
    requires
        holds_low_first(s, at, k, v),
        holds_low_first(s, at, k, w),
    ensures
        v == w,
{
    assert forall|j: nat| j < k implies #[trigger] byte_of(v, j) == byte_of(w, j) by {
        assert(s[at + j] == byte_of(v, j));
        assert(s[at + j] == byte_of(w, j));
    }
    lemma_same_bytes(v, w, k);
}

/// Bytes, high byte first, are those of one number.
pub proof fn lemma_high_unique(s: Seq<u8>, at: int, k: nat, v: int, w: int)
    requires
        holds_high_first(s, at, k, v),
        holds_high_first(s, at, k, w),
    ensures
        v == w,
{
    assert forall|j: nat| j < k implies #[trigger] byte_of(v, j) == byte_of(w, j) by {
        assert(s[at + k - 1 - j] == byte_of(v, j));
        assert(s[at + k - 1 - j] == byte_of(w, j));
    }
    lemma_same_bytes(v, w, k);
}

} // verus!
