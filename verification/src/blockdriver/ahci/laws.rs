//! What a disk is told, stated of the words and the actions that reach it.

use vstd::prelude::*;

use crate::blockdriver::ahci::command;
use crate::blockdriver::ahci::command::PrdEntry;
use crate::blockdriver::ahci::controller;
use crate::blockdriver::ahci::port;
use crate::blockdriver::ahci::port::{Action, AhciError, AhciPort, Transfer};
use crate::blockdriver::ahci::slots;
use crate::blockdriver::ahci::submit;
use crate::replay::Run;

verus! {

/// Byte `i` of a frame, as the disk receives it.
pub open spec fn frame_byte(w: Seq<u32>, i: int) -> int {
    let x = w[i / 4] as int;
    if i % 4 == 0 {
        x % 256
    } else if i % 4 == 1 {
        x / 256 % 256
    } else if i % 4 == 2 {
        x / 0x1_0000 % 256
    } else {
        x / 0x100_0000
    }
}

/// The 48-bit sector number that a disk takes out of a frame: bytes 4 to 6, and above them
/// bytes 8 to 10.
pub open spec fn sector_in(w: Seq<u32>) -> int {
    frame_byte(w, 4) + 0x100 * frame_byte(w, 5) + 0x1_0000 * frame_byte(w, 6) + 0x100_0000
        * frame_byte(w, 8) + 0x1_0000_0000 * frame_byte(w, 9) + 0x100_0000_0000 * frame_byte(w, 10)
}

/// The 28-bit sector number that a disk takes out of a frame: bytes 4 to 6, and above them
/// the low half of byte 7.
pub open spec fn short_sector_in(w: Seq<u32>) -> int {
    frame_byte(w, 4) + 0x100 * frame_byte(w, 5) + 0x1_0000 * frame_byte(w, 6) + 0x100_0000 * (
    frame_byte(w, 7) % 16)
}

/// The frame carries a command to the disk.
pub open spec fn is_command(w: Seq<u32>, cmd: int) -> bool {
    &&& w.len() == 5
    &&& frame_byte(w, 0) == 0x27
    &&& frame_byte(w, 1) == 0x80
    &&& frame_byte(w, 2) == cmd
}

/// A frame for a queued command names the sector, the count, the slot and the command that
/// it was made for.
pub proof fn law_queued_frame(lba: u64, count: u16, tag: u8, cmd: u8)
    requires
        lba < 0x1_0000_0000_0000,
        tag < 32,
    ensures
        ({
            let w = command::ncq_fis(lba, count, tag, cmd);
            &&& is_command(w, cmd as int)
            &&& sector_in(w) == lba
            &&& frame_byte(w, 3) + 256 * frame_byte(w, 11) == count
            &&& frame_byte(w, 7) == 0x40
            &&& frame_byte(w, 12) / 8 == tag
            &&& frame_byte(w, 12) % 8 == 0
            &&& frame_byte(w, 13) == 0 && frame_byte(w, 14) == 0 && frame_byte(w, 15) == 0
            &&& w[4] == 0
        }),
{
    let w = command::ncq_fis(lba, count, tag, cmd);
    let (lo, hi) = (lba as int % 0x100_0000, lba as int / 0x100_0000);
    assert(w[0] == 0x8027 + cmd * 0x1_0000 + (count as int % 256) * 0x100_0000);
    assert(w[1] == lo + 0x4000_0000);
    assert(w[2] == hi + (count as int / 256) * 0x100_0000);
    lemma_three_bytes(lo);
    lemma_three_bytes(hi);
    lemma_byte_above(lo, 0x40);
    lemma_byte_above(hi, count as int / 256);
}

proof fn lemma_three_bytes(v: int)
    requires
        0 <= v < 0x100_0000,
    ensures
        v == v % 256 + 0x100 * (v / 256 % 256) + 0x1_0000 * (v / 0x1_0000 % 256),
{
    let a = v / 256;
    assert(v == 256 * a + v % 256);
    assert(a == 256 * (a / 256) + a % 256);
    assert(a / 256 == v / 0x1_0000);
    assert(v / 0x1_0000 < 256);
}

/// Three bytes and one above them.
proof fn lemma_byte_above(lo: int, h: int)
    requires
        0 <= lo < 0x100_0000,
        0 <= h < 256,
    ensures
        ({
            let x = lo + h * 0x100_0000;
            &&& x / 0x100_0000 == h
            &&& x % 256 == lo % 256
            &&& x / 256 % 256 == lo / 256 % 256
            &&& x / 0x1_0000 % 256 == lo / 0x1_0000 % 256
        }),
{
    let x = lo + h * 0x100_0000;
    assert(x / 256 == lo / 256 + h * 0x1_0000);
    assert(x / 0x1_0000 == lo / 0x1_0000 + h * 256);
}

/// A frame for a command that is not queued names the sector, the count and the command that
/// it was made for, with sector numbers of 48 bits.
pub proof fn law_long_frame(lba: u64, count: u16, cmd: u8)
    requires
        lba < 0x1_0000_0000_0000,
    ensures
        ({
            let w = command::std_fis(true, lba, count, cmd);
            &&& is_command(w, cmd as int)
            &&& sector_in(w) == lba
            &&& frame_byte(w, 12) + 256 * frame_byte(w, 13) == count
            &&& frame_byte(w, 3) == 0 && frame_byte(w, 11) == 0
            &&& frame_byte(w, 7) == 0xE0
            &&& frame_byte(w, 14) == 0 && frame_byte(w, 15) == 0
            &&& w[4] == 0
        }),
{
    let w = command::std_fis(true, lba, count, cmd);
    let (lo, hi) = (lba as int % 0x100_0000, lba as int / 0x100_0000);
    assert(w[1] == lo + 0xE000_0000);
    assert(w[2] == hi);
    lemma_three_bytes(lo);
    lemma_three_bytes(hi);
    lemma_byte_above(lo, 0xE0);
    lemma_byte_above(hi, 0);
}

/// The same, with sector numbers of 28 bits and counts of up to 256, of which the last is
/// written as zero.
pub proof fn law_short_frame(lba: u64, count: u16, cmd: u8)
    requires
        lba < 0x1000_0000,
        0 < count <= 256,
    ensures
        ({
            let w = command::std_fis(false, lba, count, cmd);
            &&& is_command(w, cmd as int)
            &&& short_sector_in(w) == lba
            &&& (if frame_byte(w, 12) == 0 {
                256
            } else {
                frame_byte(w, 12)
            }) == count
            &&& frame_byte(w, 7) / 16 == 0xE
            &&& frame_byte(w, 3) == 0
            &&& frame_byte(w, 13) == 0
            &&& w[2] == 0
            &&& w[4] == 0
        }),
{
    let w = command::std_fis(false, lba, count, cmd);
    let (lo, hi) = (lba as int % 0x100_0000, lba as int / 0x100_0000);
    assert(hi % 16 == hi);
    assert(w[1] == lo + (0xE0 + hi) * 0x100_0000);
    lemma_three_bytes(lo);
    lemma_byte_above(lo, 0xE0 + hi);
    assert((0xE0 + hi) % 16 == hi && (0xE0 + hi) / 16 == 0xE);
    assert(frame_byte(w, 0) == 0x27 && frame_byte(w, 1) == 0x80 && frame_byte(w, 2) == cmd);
    assert(frame_byte(w, 3) == 0);
}

/// The frame of a transfer names its sectors, and has the command for its direction and for
/// what the disk can do: 60h and 61h to read and to write queued, 25h and 35h with long
/// sector numbers, C8h and CAh with short ones.
pub proof fn law_frame_of_a_transfer(p: AhciPort, tag: u8, t: Transfer)
    requires
        tag < 32,
        0 < t.count <= 0xFFFF,
        t.lba < 0x1_0000_0000_0000,
        !p.ncq && !p.lba48 ==> t.lba < 0x1000_0000 && t.count <= 256,
    ensures
        ({
            let w = p.frame(tag, t);
            if p.ncq {
                &&& is_command(
                    w,
                    if t.is_write {
                        0x61
                    } else {
                        0x60
                    },
                )
                &&& sector_in(w) == t.lba
                &&& frame_byte(w, 3) + 256 * frame_byte(w, 11) == t.count
                &&& frame_byte(w, 12) == 8 * tag
            } else if p.lba48 {
                &&& is_command(
                    w,
                    if t.is_write {
                        0x35
                    } else {
                        0x25
                    },
                )
                &&& sector_in(w) == t.lba
                &&& frame_byte(w, 12) + 256 * frame_byte(w, 13) == t.count
            } else {
                &&& is_command(
                    w,
                    if t.is_write {
                        0xCA
                    } else {
                        0xC8
                    },
                )
                &&& short_sector_in(w) == t.lba
                &&& (t.count == 256 && frame_byte(w, 12) == 0) || frame_byte(w, 12) == t.count
            }
        }),
{
    let c = (t.count % 0x1_0000) as u16;
    assert(c == t.count);
    if p.ncq {
        law_queued_frame(
            t.lba,
            c,
            tag,
            if t.is_write {
                0x61
            } else {
                0x60
            },
        );
    } else if p.lba48 {
        law_long_frame(
            t.lba,
            c,
            if t.is_write {
                0x35
            } else {
                0x25
            },
        );
    } else {
        law_short_frame(
            t.lba,
            c,
            if t.is_write {
                0xCA
            } else {
                0xC8
            },
        );
    }
}

/// The address and the length that a region stands for.
pub proof fn law_region(addr: u64, len: int)
    requires
        0 < len <= 0x40_0000,
    ensures
        ({
            let e = command::region(addr, len);
            &&& e.dba + 0x1_0000_0000 * e.dbau == addr
            &&& e.dbc + 1 == len
        }),
{
}

/// Asking for an interrupt sets the highest bit of the length word and nothing else.
pub proof fn law_interrupt_keeps_the_region(e: PrdEntry)
    requires
        e.dbc < 0x8000_0000,
    ensures
        ({
            let f = command::with_interrupt(e);
            &&& f.dba == e.dba
            &&& f.dbau == e.dbau
            &&& f.dbc - e.dbc == 0x8000_0000
        }),
{
}

/// A header says that the frame has five words, which way the data goes, and how many
/// regions there are.
pub proof fn law_header_word(is_write: bool, regions: int)
    requires
        0 <= regions < 0x1_0000,
    ensures
        ({
            let w = command::header_word(is_write, regions) as int;
            &&& w % 32 == 5
            &&& (w / 64 % 2 == 1) == is_write
            &&& w / 0x1_0000 == regions
            &&& w / 32 % 2 == 0 && w / 128 % 512 == 0
        }),
{
}

/// A disk with long sector numbers has the sectors that the four words from word 100 on
/// count, and another those of the two from word 60 on, low word first.
pub proof fn law_sectors_of_a_disk(words: Seq<u16>, long: bool)
    requires
        words.len() == 256,
        long == (words[83] as int / 0x400 % 2 == 1),
    ensures
        ({
            let n = command::sectors_of(words);
            if long {
                &&& n % 0x1_0000 == words[100]
                &&& n / 0x1_0000 % 0x1_0000 == words[101]
                &&& n / 0x1_0000_0000 % 0x1_0000 == words[102]
                &&& n / 0x1_0000_0000_0000 == words[103]
            } else {
                &&& n % 0x1_0000 == words[60]
                &&& n / 0x1_0000 == words[61]
            }
        }),
{
    let f = words[83];
    assert((f & 0x0400 != 0) == (f / 0x400 % 2 == 1)) by (bit_vector);
    if long {
        let n = command::sectors_of(words);
        let a = words[101] + words[102] * 0x1_0000 + words[103] * 0x1_0000_0000;
        let b = words[102] + words[103] * 0x1_0000;
        assert(n == words[100] + 0x1_0000 * a);
        assert(a == words[101] + 0x1_0000 * b);
        assert(n / 0x1_0000 == a);
        assert(a / 0x1_0000 == b);
        assert(n / 0x1_0000_0000 == a / 0x1_0000);
        assert(n / 0x1_0000_0000_0000 == b / 0x1_0000);
    }
}

/// The model is the text in the words from word 27 on, the high byte of each first, up to
/// the last character that is no blank.
pub proof fn law_model_of_a_disk(words: Seq<u16>, i: int)
    requires
        words.len() == 256,
        0 <= i < 20,
    ensures
        ({
            let m = command::model_bytes(words);
            &&& m.len() == 40
            &&& m[2 * i] * 256 + m[2 * i + 1] == words[27 + i]
        }),
{
}

/// Blanks at the end of a model become zeros, and nothing else is changed.
pub proof fn law_only_padding_is_cleared(s: Seq<u8>, i: int)
    requires
        0 <= i < s.len(),
    ensures
        ({
            let z = command::zero_padded(s);
            &&& z.len() == s.len()
            &&& (exists|j: int| i <= j < s.len() && #[trigger] s[j] != 0x20 && s[j] != 0) ==> z[i]
                == s[i]
            &&& (forall|j: int| i <= j < s.len() ==> #[trigger] s[j] == 0x20 || s[j] == 0) ==> z[i]
                == 0
        }),
{
    lemma_unpadded(s);
    let n = command::unpadded(s) as int;
    if exists|j: int| i <= j < s.len() && #[trigger] s[j] != 0x20 && s[j] != 0 {
        let j = choose|j: int| i <= j < s.len() && #[trigger] s[j] != 0x20 && s[j] != 0;
        assert(j < n);
    }
    if forall|j: int| i <= j < s.len() ==> #[trigger] s[j] == 0x20 || s[j] == 0 {
        if i < n {
            assert(s[n - 1] == 0x20 || s[n - 1] == 0);
        }
    }
}

proof fn lemma_unpadded(s: Seq<u8>)
    ensures
        command::unpadded(s) <= s.len(),
        command::unpadded(s) > 0 ==> s[command::unpadded(s) - 1] != 0x20 && s[command::unpadded(s)
            - 1] != 0,
        forall|j: int|
            command::unpadded(s) <= j < s.len() ==> #[trigger] s[j] == 0x20 || s[j] == 0,
    decreases s.len(),
{
    if s.len() > 0 && command::is_blank(s.last()) {
        lemma_unpadded(s.drop_last());
        assert forall|j: int| command::unpadded(s) <= j < s.len() implies #[trigger] s[j] == 0x20
            || s[j] == 0 by {
            if j < s.len() - 1 {
                assert(s.drop_last()[j] == s[j]);
            }
        }
    }
}

/// Where piece `k` of the memory from `va` on starts: with the memory, or with the page.
pub open spec fn piece_start(va: int, k: int) -> int {
    if k <= 0 {
        va
    } else {
        (va / 4096 + k) * 4096
    }
}

/// Where piece `k` of `len` bytes from `va` on ends: with the page, or with the memory.
pub open spec fn piece_end(va: int, len: int, k: int) -> int {
    if va + len < (va / 4096 + k + 1) * 4096 {
        va + len
    } else {
        (va / 4096 + k + 1) * 4096
    }
}

/// The replies to the translations of the first `k` pieces are page addresses, plus one.
pub open spec fn translated(r: Seq<u64>, p: int, k: int) -> bool {
    forall|j: int| #![trigger r[p + 2 * j]]
        0 <= j < k ==> r[p + 2 * j] >= 1 && (r[p + 2 * j] - 1) % 4096 == 0
}

/// A page and an offset in it.
pub proof fn lemma_page_and_offset(page: u64, off: u64)
    requires
        page % 4096 == 0,
        off < 4096,
    ensures
        page | off == page + off,
{
    assert(page | off == page + off) by (bit_vector)
        requires
            page % 4096 == 0,
            off < 4096,
    ;
}

/// The memory behind the first piece is cut as the memory itself.
proof fn lemma_next_piece(va: int, len: int, k: int)
    requires
        0 <= va,
        len > 4096 - va % 4096,
        k >= 0,
    ensures
        ({
            let c = 4096 - va % 4096;
            &&& piece_start(va + c, k) == piece_start(va, k + 1)
            &&& piece_end(va + c, len - c, k) == piece_end(va, len, k + 1)
        }),
{
    let c = 4096 - va % 4096;
    assert((va + c) / 4096 == va / 4096 + 1);
}

/// The regions of a transfer are its memory, cut at the ends of pages: for each piece its
/// address is translated, and then a region is written with the address that came back, the
/// offset in the page, and the length of the piece.
pub proof fn law_regions_are_the_memory(
    r: Seq<u64>,
    p: int,
    tag: u8,
    va: u64,
    len: int,
    n: int,
    max: int,
    last: PrdEntry,
    k: int,
)
    requires
        0 <= p,
        0 <= n,
        0 < len,
        va + len <= u64::MAX,
        0 <= k,
        n + k < max <= 0x1_0000,
        piece_start(va as int, k) < va + len,
        translated(r, p, k),
    ensures
        r.len() == p + 2 * k ==> port::prdt_built(r, p, tag, va, len, n, max, last)
            == Run::<Action, Result<(usize, PrdEntry), AhciError>>::Wants(
            Action::Translate(piece_start(va as int, k) as u64),
        ),
        r.len() == p + 2 * k + 1 && r[p + 2 * k] >= 1 && (r[p + 2 * k] - 1) % 4096 == 0 ==> (
        port::prdt_built(r, p, tag, va, len, n, max, last) matches Run::Wants(
            Action::WritePrd(slot, i, e),
        ) && slot == tag && i == n + k && e.dba + 0x1_0000_0000 * e.dbau == r[p + 2 * k] - 1
            + piece_start(va as int, k) % 4096 && e.dbc + 1 == piece_end(va as int, len, k)
            - piece_start(va as int, k)),
    decreases k,
{
    let c = port::chunk_at(va, len);
    if k == 0 {
        assert(piece_end(va as int, len, 0) == va + c);
        if r.len() == p + 1 && r[p + 2 * 0] >= 1 && (r[p + 2 * 0] - 1) % 4096 == 0 {
            let page = (r[p] - 1) as u64;
            lemma_page_and_offset(page, va % 4096);
        }
    } else {
        assert(piece_start(va as int, 1) <= piece_start(va as int, k));
        assert(len > 4096 - va as int % 4096);
        if r.len() >= p + 2 {
            assert(r[p + 2 * 0] >= 1);
            let e = command::region(((r[p] - 1) as u64) | (va % 4096), c);
            lemma_next_piece(va as int, len, k - 1);
            let next = va.wrapping_add(c as u64);
            assert(next == va + c);
            assert(translated(r, p + 2, k - 1)) by {
                assert forall|j: int| #![trigger r[p + 2 + 2 * j]]
                    0 <= j < k - 1 implies r[p + 2 + 2 * j] >= 1 && (r[p + 2 + 2 * j] - 1) % 4096
                    == 0 by {
                    assert(r[p + 2 * (j + 1)] >= 1);
                }
            }
            law_regions_are_the_memory(r, p + 2, tag, next, len - c, n + 1, max, e, k - 1);
            assert(p + 2 + 2 * (k - 1) == p + 2 * k);
        }
    }
}

/// A transfer whose pieces were all translated has a region for each, and no more.
pub proof fn law_all_memory_has_regions(
    r: Seq<u64>,
    p: int,
    tag: u8,
    va: u64,
    len: int,
    n: int,
    max: int,
    last: PrdEntry,
    k: int,
)
    requires
        0 <= p,
        0 <= n,
        0 < len,
        va + len <= u64::MAX,
        0 < k,
        n + k <= max <= 0x1_0000,
        piece_start(va as int, k - 1) < va + len <= piece_start(va as int, k),
        translated(r, p, k),
        r.len() >= p + 2 * k,
    ensures
        port::prdt_built(r, p, tag, va, len, n, max, last) matches Run::Gives(
            Ok((m, _)),
            q,
        ) && m == n + k && q == p + 2 * k,
    decreases k,
{
    let c = port::chunk_at(va, len);
    assert(r[p + 2 * 0] >= 1);
    let e = command::region(((r[p] - 1) as u64) | (va % 4096), c);
    if k > 1 {
        assert(piece_start(va as int, 1) <= piece_start(va as int, k - 1));
        assert(len > 4096 - va as int % 4096);
        lemma_next_piece(va as int, len, k - 1);
        lemma_next_piece(va as int, len, k - 2);
        let next = va.wrapping_add(c as u64);
        assert(next == va + c);
        assert(translated(r, p + 2, k - 1)) by {
            assert forall|j: int| #![trigger r[p + 2 + 2 * j]] 0 <= j < k - 1 implies r[p + 2 + 2
                * j] >= 1 && (r[p + 2 + 2 * j] - 1) % 4096 == 0 by {
                assert(r[p + 2 * (j + 1)] >= 1);
            }
        }
        law_all_memory_has_regions(r, p + 2, tag, next, len - c, n + 1, max, e, k - 1);
    } else {
        assert(c == len);
    }
}

/// The mask of some slots has the bits of these and no other.
pub proof fn law_mask_has_the_slots(tags: Seq<u8>, t: u8)
    requires
        t < 32,
        forall|i: int| 0 <= i < tags.len() ==> #[trigger] tags[i] < 32,
    ensures
        (slots::mask_of(tags) & (1u32 << t) != 0) <==> tags.contains(t),
    decreases tags.len(),
{
    if tags.len() == 0 {
        assert(0u32 & (1u32 << t) == 0) by (bit_vector);
    } else {
        let a = slots::mask_of(tags.drop_last());
        let u = tags.last();
        assert forall|i: int| 0 <= i < tags.drop_last().len() implies #[trigger] tags.drop_last()[i]
            < 32 by {
            assert(tags.drop_last()[i] == tags[i]);
        }
        law_mask_has_the_slots(tags.drop_last(), t);
        assert(((a | (1u32 << u)) & (1u32 << t) != 0) == ((a & (1u32 << t) != 0) || u == t))
            by (bit_vector)
            requires
                t < 32,
                u < 32,
        ;
        assert(tags =~= tags.drop_last().push(u));
        if tags.contains(t) && t != u {
            let i = choose|i: int| 0 <= i < tags.len() && tags[i] == t;
            assert(tags.drop_last()[i] == t);
        }
        if tags.drop_last().contains(t) {
            let i = choose|i: int| 0 <= i < tags.drop_last().len() && tags.drop_last()[i] == t;
            assert(tags[i] == t);
        }
    }
}

/// The free slots are those below the limit that are not in use, from the lowest on.
pub proof fn law_free_slots(current: u32, n: nat, t: u8)
    requires
        n <= 32,
    ensures
        slots::free_tags(current, n).contains(t) <==> t < n && current & (1u32 << t) == 0,
        forall|i: int, j: int|
            0 <= i < j < slots::free_tags(current, n).len() ==> #[trigger] slots::free_tags(
                current,
                n,
            )[i] < #[trigger] slots::free_tags(current, n)[j],
    decreases n,
{
    if n > 0 {
        let m = (n - 1) as nat;
        law_free_slots(current, m, t);
        let a = slots::free_tags(current, m);
        let b = slots::free_tags(current, n);
        assert forall|i: int| 0 <= i < a.len() implies #[trigger] a[i] < m by {
            law_free_slots(current, m, a[i]);
            assert(a.contains(a[i]));
        }
        if a.contains(t) {
            let i = choose|i: int| 0 <= i < a.len() && a[i] == t;
            assert(b[i] == t);
        }
        if b.contains(t) && t != m {
            let i = choose|i: int| 0 <= i < b.len() && b[i] == t;
            assert(a[i] == t);
        }
        if t == m && current & (1u32 << t) == 0 {
            assert(b[a.len() as int] == t);
        }
        if t == m && b.contains(t) && current & (1u32 << t) != 0 {
            let i = choose|i: int| 0 <= i < a.len() && a[i] == t;
            assert(a[i] < m);
        }
    }
}

proof fn lemma_masks(all: u32, err: u32, bit: u32)
    requires
        err & !all == 0,
    ensures
        (all & !err) | err == all,
        bit & !all == 0 ==> (err | bit) & !all == 0,
        0u32 | all == all,
{
    assert((all & !err) | err == all && (bit & !all == 0 ==> (err | bit) & !all == 0) && 0u32 | all
        == all) by (bit_vector)
        requires
            err & !all == 0,
    ;
}

proof fn lemma_tag_in_mask(tags: Seq<u8>, i: int)
    requires
        0 <= i < tags.len(),
    ensures
        (1u32 << tags[i]) & !slots::mask_of(tags) == 0,
    decreases tags.len(),
{
    let a = slots::mask_of(tags.drop_last());
    let b = 1u32 << tags.last();
    if i == tags.len() - 1 {
        assert(b & !(a | b) == 0) by (bit_vector);
    } else {
        lemma_tag_in_mask(tags.drop_last(), i);
        assert(tags.drop_last()[i] == tags[i]);
        let c = 1u32 << tags[i];
        assert(c & !(a | b) == 0) by (bit_vector)
            requires
                c & !a == 0,
        ;
    }
}

proof fn lemma_prepared_mask(
    h: AhciPort,
    r: Seq<u64>,
    p: int,
    reqs: Seq<Transfer>,
    tags: Seq<u8>,
    i: int,
    err: u32,
)
    requires
        0 <= i,
        err & !slots::mask_of(tags) == 0,
    ensures
        h.all_prepared(r, p, reqs, tags, i, err) matches Run::Gives(e, _) ==> e & !slots::mask_of(
            tags,
        ) == 0,
    decreases tags.len() - i,
{
    if i < tags.len() {
        let all = slots::mask_of(tags);
        lemma_tag_in_mask(tags, i);
        let bit = 1u32 << tags[i];
        lemma_masks(all, err, bit);
        if reqs[i].buf_size < port::bytes_of(reqs[i]) {
            lemma_prepared_mask(h, r, p, reqs, tags, i + 1, err | bit);
        } else {
            match h.prepared(r, p, tags[i], reqs[i]) {
                Run::Gives(res, q) => {
                    lemma_prepared_mask(h, r, q, reqs, tags, i + 1, err | bit);
                    lemma_prepared_mask(h, r, q, reqs, tags, i + 1, err);
                },
                Run::Wants(_) => {},
            }
        }
    }
}

proof fn lemma_again_mask(
    h: AhciPort,
    r: Seq<u64>,
    p: int,
    reqs: Seq<Transfer>,
    tags: Seq<u8>,
    i: int,
    err: u32,
    retry: u32,
    good: u32,
)
    requires
        0 <= i,
        good | err == slots::mask_of(tags),
    ensures
        h.all_prepared_again(r, p, reqs, tags, i, err, retry) matches Run::Gives(l, _) ==> good
            | l.0 == slots::mask_of(tags),
    decreases tags.len() - i,
{
    if i < tags.len() {
        let all = slots::mask_of(tags);
        lemma_tag_in_mask(tags, i);
        let bit = 1u32 << tags[i];
        assert(good | (err | bit) == all) by (bit_vector)
            requires
                good | err == all,
                bit & !all == 0,
        ;
        if err & bit != 0 {
            lemma_again_mask(h, r, p, reqs, tags, i + 1, err, retry, good);
        } else if reqs[i].buf_size < port::bytes_of(reqs[i]) {
            lemma_again_mask(h, r, p, reqs, tags, i + 1, err | bit, retry & !bit, good);
        } else {
            match h.prepared(r, p, tags[i], reqs[i]) {
                Run::Gives(res, q) => {
                    lemma_again_mask(h, r, q, reqs, tags, i + 1, err | bit, retry & !bit, good);
                    lemma_again_mask(h, r, q, reqs, tags, i + 1, err, retry, good);
                },
                Run::Wants(_) => {},
            }
        }
    }
}

/// Every transfer that a submission takes is reported, as completed or as failed, by the bit
/// of its slot: as many as there are slots where the disk queues commands, else one.
pub proof fn law_every_transfer_is_reported(h: AhciPort, r: Seq<u64>, reqs: Seq<Transfer>)
    requires
        h.n_slots <= 32,
    ensures
        h.submitted(r, reqs) matches Run::Gives(Ok(c), _) ==> {
            let most: int = if h.ncq {
                h.n_slots as int
            } else {
                1
            };
            let n = if reqs.len() < most {
                reqs.len() as int
            } else {
                most
            };
            c.completed | c.errors == slots::mask_of(
                slots::free_tags(h.slot_alloc, h.n_slots as nat).take(n),
            )
        },
{
    let n = h.taken(reqs.len());
    let none = Seq::<u8>::empty();
    if n == 0 {
        assert(slots::free_tags(h.slot_alloc, h.n_slots as nat).take(0) =~= none);
        assert(0u32 | 0u32 == 0) by (bit_vector);
    } else {
        let tags = h.slots_for(n);
        let all = slots::mask_of(tags);
        assert(0u32 & !all == 0) by (bit_vector);
        lemma_prepared_mask(h, r, 0, reqs, tags, 0, 0);
        match h.all_prepared(r, 0, reqs, tags, 0, 0) {
            Run::Gives(err, q) => {
                lemma_masks(all, err, 0);
                lemma_reported(h, r, q, reqs, tags, err);
            },
            Run::Wants(_) => {},
        }
    }
}

proof fn lemma_reported(
    h: AhciPort,
    r: Seq<u64>,
    p: int,
    reqs: Seq<Transfer>,
    tags: Seq<u8>,
    err: u32,
)
    requires
        err & !slots::mask_of(tags) == 0,
    ensures
        h.started(r, p, reqs, tags, err) matches Run::Gives(Ok(c), _) ==> c.completed | c.errors
            == slots::mask_of(tags),
{
    let all = slots::mask_of(tags);
    let good = all & !err;
    lemma_masks(all, err, 0);
    if good != 0 {
        let flushed = if reqs[0].is_write {
            crate::blockdriver::ahci::submit::cache_flushed(r, p, reqs, tags.len() as int, 0)
        } else {
            Run::Gives((), p)
        };
        match flushed {
            Run::Gives(_, q) => match port::batch_submitted(r, q, h.port, h.ncq, good) {
                Run::Gives(res, q2) => if res is Err {
                    match port::port_was_reset(r, q2, h.port) {
                        Run::Gives(again, q3) => {
                            lemma_again_mask(h, r, q3, reqs, tags, 0, err, good, good);
                        },
                        Run::Wants(_) => {},
                    }
                },
                Run::Wants(_) => {},
            },
            Run::Wants(_) => {},
        }
    }
}

/// Slots are started only where neither register shows one of them in flight, which are the
/// first two that are read; where commands are queued, the slots are marked as such before
/// they are started. Registers 38h and 34h of a port show the slots in flight, 20h the state
/// of the disk.
pub proof fn law_slots_are_started_once(r: Seq<u64>, p: int, port: u8, ncq: bool, mask: u32)
    requires
        0 <= p <= r.len(),
    ensures
        ({
            let run = port::batch_submitted(r, p, port, ncq, mask);
            let k: int = if ncq {
                1
            } else {
                0
            };
            &&& r.len() == p ==> run == Run::<Action, Result<(), AhciError>>::Wants(
                Action::ReadPort(port, 0x38),
            )
            &&& r.len() > p && (r[p] % 0x1_0000_0000) as u32 & mask != 0 ==> run == Run::<
                Action,
                Result<(), AhciError>,
            >::Gives(Err(AhciError::SlotStillActive), p + 1)
            &&& r.len() > p && (r[p] % 0x1_0000_0000) as u32 & mask == 0 ==> {
                &&& r.len() == p + 1 ==> run == Run::<Action, Result<(), AhciError>>::Wants(
                    Action::ReadPort(port, 0x34),
                )
                &&& r.len() > p + 1 && (r[p + 1] % 0x1_0000_0000) as u32 & mask != 0 ==> run
                    == Run::<Action, Result<(), AhciError>>::Gives(
                    Err(AhciError::SlotStillActive),
                    p + 2,
                )
                &&& r.len() > p + 1 && (r[p + 1] % 0x1_0000_0000) as u32 & mask == 0 ==> {
                    &&& r.len() == p + 2 ==> run == Run::<Action, Result<(), AhciError>>::Wants(
                        Action::Fence,
                    )
                    &&& ncq && r.len() == p + 3 ==> run == Run::<
                        Action,
                        Result<(), AhciError>,
                    >::Wants(Action::WritePort(port, 0x34, mask))
                    &&& r.len() == p + 3 + k ==> run == Run::<
                        Action,
                        Result<(), AhciError>,
                    >::Wants(Action::WritePort(port, 0x38, mask))
                    &&& r.len() == p + 4 + k ==> run == Run::<
                        Action,
                        Result<(), AhciError>,
                    >::Wants(Action::AwaitSlots(port, mask))
                    &&& r.len() == p + 5 + k ==> run == Run::<
                        Action,
                        Result<(), AhciError>,
                    >::Wants(Action::ReadPort(port, 0x38))
                    &&& r.len() == p + 6 + k ==> run == Run::<
                        Action,
                        Result<(), AhciError>,
                    >::Wants(Action::ReadPort(port, 0x34))
                    &&& r.len() == p + 7 + k ==> run == Run::<
                        Action,
                        Result<(), AhciError>,
                    >::Wants(Action::ReadPort(port, 0x20))
                    &&& r.len() >= p + 8 + k ==> (run matches Run::Gives(res, q) && q == p + 8 + k
                        && (res is Ok <==> (r[p + 5 + k] % 0x1_0000_0000) as u32 & mask == 0 && (
                    r[p + 6 + k] % 0x1_0000_0000) as u32 & mask == 0 && r[p + 7 + k] % 2 == 0))
                }
            }
        }),
{
    if r.len() >= p + 8 {
        let k: int = if ncq {
            1
        } else {
            0
        };
        if r.len() >= p + 8 + k {
            let x = (r[p + 7 + k] % 0x1_0000_0000) as u32;
            assert(x & 1 == x % 2) by (bit_vector);
            assert(x % 2 == r[p + 7 + k] % 2);
        }
    }
}

/// What a reset of a port may clear is read before the link is reset, and written back once
/// it is up again: the addresses of the list and of the received frames, and the interrupts.
pub proof fn law_reset_puts_back(s: port::Saved)
    ensures
        ({
            let w = port::revival(s);
            &&& w.contains((0x00u32, s.clb))
            &&& w.contains((0x04u32, s.clbu))
            &&& w.contains((0x08u32, s.fb))
            &&& w.contains((0x0Cu32, s.fbu))
            &&& w.contains((0x30u32, 0xFFFF_FFFFu32))
            &&& w.contains((0x10u32, 0xFFFF_FFFFu32))
            &&& w.len() == 7
            &&& w.last() == (0x18u32, 0x16u32)
        }),
{
    let w = port::revival(s);
    assert(w[0] == (0x00u32, s.clb));
    assert(w[1] == (0x04u32, s.clbu));
    assert(w[2] == (0x08u32, s.fb));
    assert(w[3] == (0x0Cu32, s.fbu));
    assert(w[4] == (0x30u32, 0xFFFF_FFFFu32));
    assert(w[5] == (0x10u32, 0xFFFF_FFFFu32));
    assert(2u32 | 4 | 16 == 0x16) by (bit_vector);
}

/// A port is told the addresses of its list and of its received frames in two halves each,
/// has no flag pending and asks for no interrupt.
pub proof fn law_port_is_programmed(list: u64, received: u64)
    ensures
        ({
            let w = controller::programming(list, received);
            &&& w.len() == 7
            &&& w[0].0 == 0x00 && w[1].0 == 0x04 && w[0].1 + 0x1_0000_0000 * w[1].1 == list
            &&& w[2].0 == 0x08 && w[3].0 == 0x0C && w[2].1 + 0x1_0000_0000 * w[3].1 == received
            &&& w[4] == (0x10u32, 0xFFFF_FFFFu32)
            &&& w[5] == (0x30u32, 0xFFFF_FFFFu32)
            &&& w[6] == (0x14u32, 0u32)
        }),
{
}

/// The registers of a controller with `n` ports are mapped in whole pages, which hold the 256
/// bytes of the controller and 128 bytes for each port, and no page more than that takes with
/// one port beyond.
pub proof fn law_all_registers_are_mapped(n: int)
    requires
        1 <= n <= 32,
    ensures
        controller::register_bytes(n) % 4096 == 0,
        256 + 128 * n <= controller::register_bytes(n) < 256 + 128 * (n + 1) + 4096,
{
}

/// What a disk says of itself becomes the port: long sector numbers by bit 10 of word 83,
/// queued commands by bit 8 of word 76; no slot is in use.
pub proof fn law_disk_describes_itself(
    port: u8,
    scratch: u64,
    max_prdt: usize,
    n_slots: u8,
    words: Seq<u16>,
)
    requires
        words.len() == 256,
    ensures
        ({
            let v = controller::port_of(port, scratch, max_prdt, n_slots, words);
            &&& v.port == port
            &&& v.scratch_paddr == scratch
            &&& v.n_slots == n_slots
            &&& v.max_prdt == max_prdt
            &&& v.slot_alloc == 0
            &&& v.lba48 <==> words[83] as int / 1024 % 2 == 1
            &&& v.ncq <==> words[76] as int / 256 % 2 == 1
        }),
{
    let (a, b) = (words[83], words[76]);
    assert((a & 0x0400 != 0) == (a / 1024 % 2 == 1) && (b & 0x0100 != 0) == (b / 256 % 2 == 1))
        by (bit_vector);
}

/// The words of a frame are written one after the other.
pub proof fn law_frame_is_written(r: Seq<u64>, p: int, tag: u8, words: Seq<u32>, i: int, k: int)
    requires
        0 <= p,
        0 <= i,
        0 <= k,
        i + k <= words.len() <= 5,
    ensures
        r.len() == p + k && i + k < words.len() ==> port::fis_written(r, p, tag, words, i)
            == Run::<Action, ()>::Wants(Action::WriteFis(tag, (i + k) as u32, words[i + k])),
        r.len() >= p + k && i + k == words.len() ==> port::fis_written(r, p, tag, words, i)
            == Run::<Action, ()>::Gives((), p + k),
    decreases k,
{
    if k > 0 {
        law_frame_is_written(r, p + 1, tag, words, i + 1, k - 1);
    }
}

/// A transfer is prepared in order: the table of its slot is cleared, the five words of its
/// frame are written, then its regions.
pub proof fn law_transfer_is_prepared(h: AhciPort, r: Seq<u64>, p: int, tag: u8, t: Transfer, k: int)
    requires
        0 <= p <= r.len(),
        0 <= k < 5,
    ensures
        r.len() == p ==> h.prepared(r, p, tag, t) == Run::<Action, Result<(), AhciError>>::Wants(
            Action::ClearTable(tag),
        ),
        r.len() == p + 1 + k ==> h.prepared(r, p, tag, t) == Run::<
            Action,
            Result<(), AhciError>,
        >::Wants(Action::WriteFis(tag, k as u32, h.frame(tag, t)[k])),
        r.len() >= p + 6 ==> (h.regions_written(r, p + 6, tag, t) matches Run::Wants(a)
            ==> h.prepared(r, p, tag, t) == Run::<Action, Result<(), AhciError>>::Wants(a)),
{
    let w = h.frame(tag, t);
    assert(w.len() == 5);
    if r.len() > p {
        law_frame_is_written(r, p + 1, tag, w, 0, k);
        law_frame_is_written(r, p + 1, tag, w, 0, 5);
    }
}

/// Behind the regions an interrupt is asked for at the last of them, and then the header is
/// written.
pub proof fn law_header_comes_last(
    h: AhciPort,
    r: Seq<u64>,
    p: int,
    tag: u8,
    t: Transfer,
    n: usize,
    last: PrdEntry,
    q: int,
)
    requires
        0 <= p,
        p + 6 <= q <= r.len(),
        0 < n <= 64,
        last.dbc < 0x8000_0000,
        h.regions_written(r, p + 6, tag, t) == Run::<
            Action,
            Result<(usize, PrdEntry), AhciError>,
        >::Gives(Ok((n, last)), q),
    ensures
        r.len() == q ==> (h.prepared(r, p, tag, t) matches Run::Wants(Action::WritePrd(slot, i, e))
            && slot == tag && i == n - 1 && e.dba == last.dba && e.dbau == last.dbau && e.dbc
            - last.dbc == 0x8000_0000),
        r.len() == q + 1 ==> (h.prepared(r, p, tag, t) matches Run::Wants(
            Action::WriteHeader(slot, w),
        ) && slot == tag && w as int / 0x1_0000 == n && w % 32 == 5 && (w as int / 64 % 2 == 1
            <==> t.is_write)),
        r.len() >= q + 2 ==> h.prepared(r, p, tag, t) == Run::<
            Action,
            Result<(), AhciError>,
        >::Gives(Ok(()), q + 2),
{
    law_frame_is_written(r, p + 1, tag, h.frame(tag, t), 0, 5);
    law_header_word(t.is_write, n as int);
}

/// The capability register counts ports in the five bits from bit 17 on and slots in those
/// from bit 8 on, less one.
pub proof fn law_capabilities(cap: u32)
    ensures
        controller::ports_in(cap) == cap as int / 0x2_0000 % 32 + 1,
        controller::slots_in(cap) == cap as int / 0x100 % 32 + 1,
{
    assert((cap >> 17) & 0x1F == cap / 0x2_0000 % 32 && (cap >> 8) & 0x1F == cap / 0x100 % 32)
        by (bit_vector);
}

/// A model is the bytes before the zeros at its end.
pub proof fn law_zeros_are_cut(s: Seq<u8>)
    ensures
        ({
            let m = controller::unzeroed(s);
            &&& m.len() <= s.len()
            &&& s.take(m.len() as int) == m
            &&& forall|i: int| m.len() <= i < s.len() ==> #[trigger] s[i] == 0
            &&& m.len() > 0 ==> m.last() != 0
        }),
    decreases s.len(),
{
    if s.len() > 0 && s.last() == 0 {
        let less = s.drop_last();
        law_zeros_are_cut(less);
        let m = controller::unzeroed(less);
        assert(s.take(m.len() as int) =~= less.take(m.len() as int));
        assert forall|i: int| m.len() <= i < s.len() implies #[trigger] s[i] == 0 by {
            if i < less.len() {
                assert(less[i] == 0);
            }
        }
    } else {
        assert(s.take(s.len() as int) =~= s);
    }
}

/// Before transfers that write are started, the memory of each is flushed, in their order and
/// in its whole length of 512 bytes a sector; nothing else is asked.
pub proof fn law_memory_is_flushed(r: Seq<u64>, p: int, reqs: Seq<Transfer>, n: int, i: int)
    requires
        0 <= i <= n <= reqs.len(),
        0 <= p <= r.len(),
        forall|k: int|
            i <= k < n ==> (#[trigger] reqs[k]).buf_vaddr != 0 && 0 < reqs[k].count * 512
                < 0x1_0000_0000_0000_0000,
    ensures
        ({
            let run = submit::cache_flushed(r, p, reqs, n, i);
            &&& r.len() >= p + n - i ==> run == Run::<Action, ()>::Gives((), p + n - i)
            &&& forall|k: int|
                i <= k < n && r.len() == p + k - i ==> run == Run::<Action, ()>::Wants(
                    Action::FlushCache(
                        (#[trigger] reqs[k]).buf_vaddr,
                        (reqs[k].count * 512) as u64,
                    ),
                )
        }),
    decreases n - i,
{
    if i < n {
        let t = reqs[i];
        assert(t.buf_vaddr != 0 && port::bytes_of(t) == t.count * 512);
        if r.len() > p {
            law_memory_is_flushed(r, p + 1, reqs, n, i + 1);
        }
    }
}

/// A transfer of no sector, or without a place in memory, needs no flush.
pub proof fn law_nothing_is_flushed(r: Seq<u64>, p: int, reqs: Seq<Transfer>, n: int, i: int)
    requires
        0 <= i < n <= reqs.len(),
        reqs[i].buf_vaddr == 0 || reqs[i].count == 0,
    ensures
        submit::cache_flushed(r, p, reqs, n, i) == submit::cache_flushed(r, p, reqs, n, i + 1),
{
}

/// The registers of a port, the bits of its command, and how often a change is waited for.
pub proof fn law_numbers_of_a_port()
    ensures
        port::PORT_CLB == 0x00 && port::PORT_CLBU == 0x04 && port::PORT_FB == 0x08,
        port::PORT_FBU == 0x0C && port::PORT_IS == 0x10 && port::PORT_IE == 0x14,
        port::PORT_CMD == 0x18 && port::PORT_TFD == 0x20 && port::PORT_SSTS == 0x28,
        port::PORT_SCTL == 0x2C && port::PORT_SERR == 0x30 && port::PORT_SACT == 0x34,
        port::PORT_CI == 0x38,
        port::CMD_ST == 1 && port::CMD_SUD == 2 && port::CMD_POD == 4 && port::CMD_FRE == 16,
        port::CMD_FR == 0x4000 && port::CMD_CR == 0x8000 && port::TFD_ERR == 1,
        port::STOP_POLLS == 1000 && controller::RESET_POLLS == 1000,
        controller::HBA_CAP == 0x00 && controller::HBA_GHC == 0x04 && controller::HBA_PI == 0x0C,
        controller::GHC_HR == 1 && controller::GHC_AE == 0x8000_0000,
        controller::SSTS_DET_MASK == 15 && controller::SSTS_DET_ESTAB == 3,
        controller::PORT_INTERRUPTS == 1 + 8 + 128,
        slots::AHCI_MAX_SLOTS == 32,
{
}

} // verus!
