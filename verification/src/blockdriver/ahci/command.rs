//! Commands: frames and region lists.

use vstd::prelude::*;

verus! {

/// Regions in a command's list, at most.
pub const MAX_PRDT: usize = 64;

/// The bit of a region's length word that asks for an interrupt behind it.
pub const PRDT_IOC: u32 = 0x8000_0000;

/// A region of memory in a command's list.
#[derive(Debug, Clone, Copy, PartialEq, Eq, Structural)]
pub struct PrdEntry {
    /// The low and the high half of the address.
    pub dba: u32,
    pub dbau: u32,
    /// The length, less one.
    pub dbc: u32,
}

/// A region of `len` bytes at `addr`.
pub open spec fn region(addr: u64, len: int) -> PrdEntry {
    PrdEntry {
        dba: (addr % 0x1_0000_0000) as u32,
        dbau: (addr / 0x1_0000_0000) as u32,
        dbc: ((len - 1) % 0x1_0000_0000) as u32,
    }
}

/// The region, with an interrupt asked for behind it.
pub open spec fn with_interrupt(e: PrdEntry) -> PrdEntry {
    PrdEntry { dbc: (e.dbc % 0x8000_0000 + 0x8000_0000) as u32, ..e }
}

/// The five words of a frame for a queued command.
///
/// Byte 3 and byte 11 hold the sector count, bytes 4 to 6 and 8 to 10 the sector
/// number, byte 12 the slot, moved up by three bits.
pub open spec fn ncq_fis(lba: u64, count: u16, tag: u8, cmd: u8) -> Seq<u32> {
    seq![
        (0x8027 + cmd * 0x1_0000 + (count % 256) * 0x100_0000) as u32,
        (lba % 0x100_0000 + 0x4000_0000) as u32,
        (lba / 0x100_0000 % 0x100_0000 + (count / 256) * 0x100_0000) as u32,
        (tag * 8) as u32,
        0u32,
    ]
}

/// The five words of a frame for a command that is not queued.
///
/// With 48-bit sector numbers bytes 4 to 6 and 8 to 10 hold the sector number;
/// without, its bits from 24 on stand in the low half of byte 7.
pub open spec fn std_fis(lba48: bool, lba: u64, count: u16, cmd: u8) -> Seq<u32> {
    if lba48 {
        seq![
            (0x8027 + cmd * 0x1_0000) as u32,
            (lba % 0x100_0000 + 0xE000_0000) as u32,
            (lba / 0x100_0000 % 0x100_0000) as u32,
            count as u32,
            0u32,
        ]
    } else {
        seq![
            (0x8027 + cmd * 0x1_0000) as u32,
            (lba % 0x100_0000 + (0xE0 + lba / 0x100_0000 % 16) * 0x100_0000) as u32,
            0u32,
            (count % 256) as u32,
            0u32,
        ]
    }
}

/// The first word of a command's header: the frame's length, whether data goes to
/// the disk, and the number of regions.
pub open spec fn header_word(is_write: bool, regions: int) -> u32 {
    (5 + (if is_write {
        64int
    } else {
        0
    }) + regions * 0x1_0000) as u32
}

pub fn write_ncq_fis(lba: u64, count: u16, tag: u8, cmd: u8) -> (r: [u32; 5])
    ensures
        r@ == ncq_fis(lba, count, tag, cmd),
{
    let r: [u32; 5] = [
        0x8027 + (cmd as u32) * 0x1_0000 + ((count % 256) as u32) * 0x100_0000,
        (lba % 0x100_0000) as u32 + 0x4000_0000,
        (lba / 0x100_0000 % 0x100_0000) as u32 + ((count / 256) as u32) * 0x100_0000,
        (tag as u32) * 8,
        0,
    ];
    assert(r@ =~= ncq_fis(lba, count, tag, cmd));
    r
}

pub fn write_std_fis(lba48: bool, lba: u64, count: u16, cmd: u8) -> (r: [u32; 5])
    ensures
        r@ == std_fis(lba48, lba, count, cmd),
{
    let r: [u32; 5] = if lba48 {
        [
            0x8027 + (cmd as u32) * 0x1_0000,
            (lba % 0x100_0000) as u32 + 0xE000_0000,
            (lba / 0x100_0000 % 0x100_0000) as u32,
            count as u32,
            0,
        ]
    } else {
        [
            0x8027 + (cmd as u32) * 0x1_0000,
            (lba % 0x100_0000) as u32 + (0xE0 + (lba / 0x100_0000 % 16) as u32) * 0x100_0000,
            0,
            (count % 256) as u32,
            0,
        ]
    };
    assert(r@ =~= std_fis(lba48, lba, count, cmd));
    r
}

/// A region of `len` bytes at `addr`.
pub fn make_region(addr: u64, len: u64) -> (r: PrdEntry)
    requires
        len > 0,
    ensures
        r == region(addr, len as int),
{
    PrdEntry {
        dba: (addr % 0x1_0000_0000) as u32,
        dbau: (addr / 0x1_0000_0000) as u32,
        dbc: ((len - 1) % 0x1_0000_0000) as u32,
    }
}

pub fn ask_interrupt(e: PrdEntry) -> (r: PrdEntry)
    ensures
        r == with_interrupt(e),
{
    PrdEntry { dba: e.dba, dbau: e.dbau, dbc: e.dbc % 0x8000_0000 + 0x8000_0000 }
}

/// What a disk says of itself.
#[derive(Clone, Copy)]
pub struct Identity {
    /// Sector numbers have 48 bits.
    pub lba48: bool,
    pub sector_count: u64,
    /// Commands can be queued.
    pub ncq: bool,
    /// The model, padded with zeros.
    pub model: [u8; 40],
}

/// The number of sectors in the answer to IDENTIFY.
pub open spec fn sectors_of(words: Seq<u16>) -> int {
    if words[83] & 0x0400 != 0 {
        words[100] + words[101] * 0x1_0000 + words[102] * 0x1_0000_0000 + words[103]
            * 0x1_0000_0000_0000
    } else {
        words[60] + words[61] * 0x1_0000
    }
}

/// The bytes of the model, two to a word, the high one first.
pub open spec fn model_bytes(words: Seq<u16>) -> Seq<u8> {
    Seq::new(
        40,
        |i: int|
            if i % 2 == 0 {
                (words[27 + i / 2] / 256) as u8
            } else {
                (words[27 + i / 2] % 256) as u8
            },
    )
}

pub open spec fn is_blank(b: u8) -> bool {
    b == 0x20 || b == 0
}

/// The number of bytes up to the last one that is not blank.
pub open spec fn unpadded(s: Seq<u8>) -> nat
    decreases s.len(),
{
    if s.len() == 0 {
        0
    } else if is_blank(s.last()) {
        unpadded(s.drop_last())
    } else {
        s.len()
    }
}

/// The bytes, with zeros for the blanks at the end.
pub open spec fn zero_padded(s: Seq<u8>) -> Seq<u8> {
    Seq::new(
        s.len(),
        |i: int|
            if i < unpadded(s) {
                s[i]
            } else {
                0
            },
    )
}

pub proof fn lemma_unpadded(s: Seq<u8>)
    ensures
        unpadded(s) <= s.len(),
    decreases s.len(),
{
    if s.len() > 0 && is_blank(s.last()) {
        lemma_unpadded(s.drop_last());
    }
}

/// Reads the answer to IDENTIFY.
pub fn parse_identify(words: &Vec<u16>) -> (r: Identity)
    requires
        words@.len() == 256,
    ensures
        r.lba48 == (words@[83] & 0x0400 != 0),
        r.sector_count == sectors_of(words@),
        r.ncq == (words@[76] & 0x0100 != 0),
        r.model@ == zero_padded(model_bytes(words@)),
{
    let lba48: bool = words[83] & 0x0400 != 0;
    let sector_count: u64 = if lba48 {
        words[100] as u64 + words[101] as u64 * 0x1_0000 + words[102] as u64 * 0x1_0000_0000
            + words[103] as u64 * 0x1_0000_0000_0000
    } else {
        words[60] as u64 + words[61] as u64 * 0x1_0000
    };
    let ghost full = model_bytes(words@);
    let mut model: [u8; 40] = [0u8; 40];
    let mut i: usize = 0;
    while i < 20
        invariant
            i <= 20,
            words@.len() == 256,
            full == model_bytes(words@),
            model@.len() == 40,
            forall|k: int| 0 <= k < 2 * i ==> #[trigger] model@[k] == full[k],
        decreases 20 - i,
    {
        let w: u16 = words[27 + i];
        model[i * 2] = (w / 256) as u8;
        model[i * 2 + 1] = (w % 256) as u8;
        assert(full[2 * i as int] == (w / 256) as u8);
        assert(full[2 * i + 1] == (w % 256) as u8);
        i = i + 1;
    }
    assert(model@ =~= full);
    let mut n: usize = 40;
    assert(full.take(40) =~= full);
    while n > 0 && (model[n - 1] == 0x20 || model[n - 1] == 0)
        invariant
            n <= 40,
            full.len() == 40,
            model@.len() == 40,
            unpadded(full.take(n as int)) == unpadded(full),
            forall|k: int| 0 <= k < n ==> #[trigger] model@[k] == full[k],
            forall|k: int| n <= k < 40 ==> #[trigger] model@[k] == 0,
        decreases n,
    {
        assert(full.take(n as int).drop_last() =~= full.take(n - 1));
        model[n - 1] = 0;
        n = n - 1;
    }
    assert(unpadded(full) == n);
    assert(model@ =~= zero_padded(full));
    Identity { lba48, sector_count, ncq: words[76] & 0x0100 != 0, model }
}

} // verus!
