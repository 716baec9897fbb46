//! Flattened device trees: memory, processors and firmware tables.
//!
//! A blob is the bytes from its first one on. It lies at an address that is a multiple
//! of four, so that what is aligned in the blob is aligned in memory.

use vstd::prelude::*;

use crate::bytes;
use crate::bytes::read_be_u32;

verus! {

pub const FDT_MAGIC: u32 = 0xD00DFEED;

pub const FDT_BEGIN_NODE: u32 = 0x00000001;

pub const FDT_END_NODE: u32 = 0x00000002;

pub const FDT_PROP: u32 = 0x00000003;

pub const FDT_END: u32 = 0x00000009;

/// Most memory regions that are kept.
pub const MAX_MEMORY_REGIONS: usize = 8;

/// `#address-cells`
pub const ADDRESS_CELLS: [u8; 14] = [
    35,
    97,
    100,
    100,
    114,
    101,
    115,
    115,
    45,
    99,
    101,
    108,
    108,
    115,
];

/// `#size-cells`
pub const SIZE_CELLS: [u8; 11] = [35, 115, 105, 122, 101, 45, 99, 101, 108, 108, 115];

/// `memory`
pub const MEMORY: [u8; 6] = [109, 101, 109, 111, 114, 121];

/// `memory@80000000`
pub const MEMORY_AT: [u8; 15] = [109, 101, 109, 111, 114, 121, 64, 56, 48, 48, 48, 48, 48, 48, 48];

/// `reg`
pub const REG: [u8; 3] = [114, 101, 103];

/// `cpus`
pub const CPUS: [u8; 4] = [99, 112, 117, 115];

/// `timebase-frequency`
pub const TIMEBASE: [u8; 18] = [116, 105, 109, 101, 98, 97, 115, 101, 45, 102, 114, 101, 113, 117,
    101, 110, 99, 121];

/// `chosen`
pub const CHOSEN: [u8; 6] = [99, 104, 111, 115, 101, 110];

/// `acpi-rsdp`
pub const ACPI_RSDP: [u8; 9] = [97, 99, 112, 105, 45, 114, 115, 100, 112];

/// `device_type`
pub const DEVICE_TYPE: [u8; 11] = [100, 101, 118, 105, 99, 101, 95, 116, 121, 112, 101];

/// `status`
pub const STATUS: [u8; 6] = [115, 116, 97, 116, 117, 115];

/// `okay`
pub const OKAY: [u8; 4] = [111, 107, 97, 121];

#[derive(Debug, Clone, Copy, PartialEq, Eq, Structural)]
pub enum MemoryRegionKind {
    Usable,
    Reserved,
}

#[derive(Debug, Clone, Copy, PartialEq, Eq, Structural)]
pub struct MemoryRegion {
    pub base: u64,
    pub size: u64,
    pub kind: MemoryRegionKind,
}

/// The header of a blob.
#[derive(Debug, Clone, Copy, PartialEq, Eq, Structural)]
pub struct FdtHeader {
    pub magic: u32,
    pub total_size: u32,
    pub off_dt_struct: u32,
    pub off_dt_strings: u32,
}

/// The header of the blob `b`, where it has one and the blob is all there.
pub open spec fn header_of(b: Seq<u8>) -> Option<FdtHeader> {
    let total = bytes::be32(b, 4);
    let st = bytes::be32(b, 8);
    let strings = bytes::be32(b, 12);
    if b.len() >= 16 && bytes::be32(b, 0) == FDT_MAGIC && 16 <= total <= b.len() && st + 4 <= total
        && strings + 4 <= total {
        Some(
            FdtHeader {
                magic: FDT_MAGIC,
                total_size: total as u32,
                off_dt_struct: st as u32,
                off_dt_strings: strings as u32,
            },
        )
    } else {
        None
    }
}

pub fn fdt_parse_header(dtb: &[u8]) -> (r: Option<FdtHeader>)
    ensures
        r == header_of(dtb@),
{
    if dtb.len() < 16 {
        return None;
    }
    let magic: u32 = read_be_u32(dtb, 0);
    if magic != FDT_MAGIC {
        return None;
    }
    let total_size: u32 = read_be_u32(dtb, 4);
    if total_size < 16 || total_size as u64 > dtb.len() as u64 {
        return None;
    }
    let off_dt_struct: u32 = read_be_u32(dtb, 8);
    let off_dt_strings: u32 = read_be_u32(dtb, 12);
    if off_dt_struct as u64 + 4 > total_size as u64 || off_dt_strings as u64 + 4
        > total_size as u64 {
        return None;
    }
    Some(FdtHeader { magic, total_size, off_dt_struct, off_dt_strings })
}

impl FdtHeader {
    /// The blob has `n` bytes from `pos` on, and at least one.
    pub open spec fn has(self, pos: int, n: int) -> bool {
        pos < self.total_size && n <= self.total_size - pos
    }
}

fn in_bounds(h: &FdtHeader, pos: u64, n: u64) -> (r: bool)
    ensures
        r == h.has(pos as int, n as int),
{
    pos < h.total_size as u64 && n <= h.total_size as u64 - pos
}

/// `n` rounded up to a multiple of four.
pub open spec fn align4(n: int) -> int {
    (n + 3) / 4 * 4
}

fn align(n: u64) -> (r: u64)
    requires
        n <= 0x2_0000_0000,
    ensures
        r == align4(n as int),
        n <= r <= n + 3,
{
    (n + 3) / 4 * 4
}

/// The position after the zero that ends the name at `pos`, where that is still in the
/// blob.
pub open spec fn name_end(b: Seq<u8>, h: FdtHeader, pos: int) -> Option<int>
    decreases h.total_size - pos,
{
    if pos < 0 || pos >= h.total_size {
        None
    } else if b[pos] == 0 {
        if pos + 1 < h.total_size {
            Some(pos + 1)
        } else {
            None
        }
    } else {
        name_end(b, h, pos + 1)
    }
}

fn skip_name(dtb: &[u8], h: &FdtHeader, pos: u64) -> (r: Option<u64>)
    requires
        h.total_size <= dtb@.len(),
    ensures
        match r {
            Some(n) => name_end(dtb@, *h, pos as int) == Some(n as int) && pos < n < h.total_size,
            None => name_end(dtb@, *h, pos as int) is None,
        },
{
    let mut p: u64 = pos;
    assert(dtb@.len() == dtb.len());
    while p < h.total_size as u64
        invariant
            pos <= p,
            h.total_size <= dtb.len(),
            name_end(dtb@, *h, pos as int) == name_end(dtb@, *h, p as int),
        decreases h.total_size - p,
    {
        if dtb[p as usize] == 0 {
            if p + 1 < h.total_size as u64 {
                return Some(p + 1);
            }
            return None;
        }
        p = p + 1;
    }
    None
}

/// The blob has the text `s`, ended by a zero, at `pos`.
pub open spec fn text_at(b: Seq<u8>, pos: int, s: Seq<u8>) -> bool {
    &&& 0 <= pos
    &&& pos + s.len() < b.len()
    &&& forall|i: int| 0 <= i < s.len() ==> #[trigger] b[pos + i] == s[i]
    &&& b[pos + s.len()] == 0
}

fn fdt_str_eq(dtb: &[u8], pos: u64, expected: &[u8]) -> (r: bool)
    requires
        pos <= 0x2_0000_0000,
    ensures
        r == text_at(dtb@, pos as int, expected@),
{
    let n: usize = expected.len();
    if n >= dtb.len() || pos >= (dtb.len() - n) as u64 {
        return false;
    }
    let at: usize = pos as usize;
    let mut i: usize = 0;
    while i < n
        invariant
            i <= n,
            n == expected@.len(),
            at == pos,
            at + n < dtb.len(),
            forall|k: int| 0 <= k < i ==> #[trigger] dtb@[pos + k] == expected@[k],
        decreases n - i,
    {
        if dtb[at + i] != expected[i] {
            assert(dtb@[pos + i] != expected@[i as int]);
            return false;
        }
        i = i + 1;
    }
    dtb[at + n] == 0
}

/// The property name with the offset `nameoff` is `s`.
pub open spec fn is_prop_named(b: Seq<u8>, h: FdtHeader, nameoff: int, s: Seq<u8>) -> bool {
    h.off_dt_strings + nameoff < h.total_size && text_at(b, h.off_dt_strings + nameoff, s)
}

fn prop_named(dtb: &[u8], h: &FdtHeader, nameoff: u32, expected: &[u8]) -> (r: bool)
    ensures
        r == is_prop_named(dtb@, *h, nameoff as int, expected@),
{
    let off: u64 = h.off_dt_strings as u64 + nameoff as u64;
    off < h.total_size as u64 && fdt_str_eq(dtb, off, expected)
}

/// What stands at a position of the structure.
pub enum Token {
    /// A node begins, whose name is at `name`.
    Begin { name: int, next: int },
    /// A node ends.
    End { next: int },
    /// A property of `len` bytes at `val`; there is no `after` where they are cut off.
    Prop { len: int, nameoff: int, val: int, after: Option<int> },
    /// The structure ends.
    Finish,
    /// Something to be passed over.
    Other { next: int },
    /// The blob is cut off.
    Broken,
}

pub open spec fn token_at(b: Seq<u8>, h: FdtHeader, pos: int) -> Token {
    if pos < 0 || !h.has(pos, 4) {
        Token::Broken
    } else {
        let t = bytes::be32(b, pos);
        if t == FDT_BEGIN_NODE {
            match name_end(b, h, pos + 4) {
                Some(n) => Token::Begin { name: pos + 4, next: align4(n) },
                None => Token::Broken,
            }
        } else if t == FDT_END_NODE {
            Token::End { next: pos + 4 }
        } else if t == FDT_PROP {
            if !h.has(pos + 4, 8) {
                Token::Broken
            } else {
                let len = bytes::be32(b, pos + 4);
                Token::Prop {
                    len,
                    nameoff: bytes::be32(b, pos + 8),
                    val: pos + 12,
                    after: if h.has(pos + 12, align4(len)) {
                        Some(pos + 12 + align4(len))
                    } else {
                        None
                    },
                }
            }
        } else if t == FDT_END {
            Token::Finish
        } else {
            Token::Other { next: pos + 4 }
        }
    }
}

/// What stands at a position, to compute with.
pub enum Found {
    Begin { name: u64, next: u64 },
    End { next: u64 },
    Prop { len: u32, nameoff: u32, val: u64, after: Option<u64> },
    Finish,
    Other { next: u64 },
    Broken,
}

impl Found {
    pub open spec fn stands_for(self, t: Token, pos: int, h: FdtHeader) -> bool {
        match self {
            Found::Begin { name, next } => t == (Token::Begin {
                name: name as int,
                next: next as int,
            }) && pos + 4 == name < next <= h.total_size + 3,
            Found::End { next } => t == (Token::End { next: next as int }) && pos + 4 == next
                <= h.total_size,
            Found::Prop { len, nameoff, val, after } => t == (Token::Prop {
                len: len as int,
                nameoff: nameoff as int,
                val: val as int,
                after: match after {
                    Some(n) => Some(n as int),
                    None => None,
                },
            }) && pos + 12 == val <= h.total_size && (after matches Some(n) ==> val <= n
                <= h.total_size),
            Found::Finish => t == Token::Finish,
            Found::Other { next } => t == (Token::Other { next: next as int }) && pos + 4 == next
                <= h.total_size,
            Found::Broken => t == Token::Broken,
        }
    }
}

fn read_token(dtb: &[u8], h: &FdtHeader, pos: u64) -> (r: Found)
    requires
        h.total_size <= dtb@.len(),
        pos <= 0x1_0000_0010,
    ensures
        r.stands_for(token_at(dtb@, *h, pos as int), pos as int, *h),
        r !is Broken ==> pos < h.total_size,
{
    assert(dtb@.len() == dtb.len());
    if !in_bounds(h, pos, 4) {
        return Found::Broken;
    }
    let t: u32 = read_be_u32(dtb, pos as usize);
    if t == FDT_BEGIN_NODE {
        match skip_name(dtb, h, pos + 4) {
            Some(n) => Found::Begin { name: pos + 4, next: align(n) },
            None => Found::Broken,
        }
    } else if t == FDT_END_NODE {
        Found::End { next: pos + 4 }
    } else if t == FDT_PROP {
        if !in_bounds(h, pos + 4, 8) {
            return Found::Broken;
        }
        let len: u32 = read_be_u32(dtb, pos as usize + 4);
        let nameoff: u32 = read_be_u32(dtb, pos as usize + 8);
        let padded: u64 = align(len as u64);
        let after: Option<u64> = if in_bounds(h, pos + 12, padded) {
            Some(pos + 12 + padded)
        } else {
            None
        };
        Found::Prop { len, nameoff, val: pos + 12, after }
    } else if t == FDT_END {
        Found::Finish
    } else {
        Found::Other { next: pos + 4 }
    }
}

/// Where the contents of the root node begin.
pub open spec fn root_start(b: Seq<u8>, h: FdtHeader) -> Option<int> {
    if h.has(0, h.off_dt_struct as int) && h.has(h.off_dt_struct as int, 4) {
        match name_end(b, h, h.off_dt_struct + 4) {
            Some(n) => Some(align4(n)),
            None => None,
        }
    } else {
        None
    }
}

fn find_root(dtb: &[u8], h: &FdtHeader) -> (r: Option<u64>)
    requires
        h.total_size <= dtb@.len(),
    ensures
        match r {
            Some(n) => root_start(dtb@, *h) == Some(n as int) && 4 < n <= h.total_size + 3,
            None => root_start(dtb@, *h) is None,
        },
{
    if !in_bounds(h, 0, h.off_dt_struct as u64) || !in_bounds(h, h.off_dt_struct as u64, 4) {
        return None;
    }
    match skip_name(dtb, h, h.off_dt_struct as u64 + 4) {
        Some(n) => Some(align(n)),
        None => None,
    }
}

/// How much is left to walk.
pub open spec fn left(h: FdtHeader, pos: int) -> int {
    if pos < h.total_size {
        h.total_size - pos
    } else {
        0
    }
}

/// The number that `cells` words of 32 bits at `off` make, as far as 64 bits hold it.
pub open spec fn be_cells(b: Seq<u8>, off: int, cells: int) -> int
    decreases cells,
{
    if cells <= 0 {
        0
    } else {
        (be_cells(b, off, cells - 1) * 0x1_0000_0000 + bytes::be32(b, off + 4 * (cells - 1)))
            % 0x1_0000_0000_0000_0000
    }
}

fn read_be_n(dtb: &[u8], off: u64, cells: u64) -> (r: u64)
    requires
        cells <= 0x4000_0000,
        off + 4 * cells <= dtb@.len(),
    ensures
        r == be_cells(dtb@, off as int, cells as int),
{
    let mut val: u64 = 0;
    let mut i: u64 = 0;
    assert(dtb@.len() == dtb.len());
    while i < cells
        invariant
            i <= cells,
            cells <= 0x4000_0000,
            off + 4 * cells <= dtb.len(),
            val == be_cells(dtb@, off as int, i as int),
        decreases cells - i,
    {
        let word: u32 = read_be_u32(dtb, (off + 4 * i) as usize);
        let ghost was = val as int;
        val = (val % 0x1_0000_0000) * 0x1_0000_0000 + word as u64;
        assert(val == (was * 0x1_0000_0000 + word) % 0x1_0000_0000_0000_0000);
        i = i + 1;
    }
    val
}

/// The numbers of cells that the properties of the root node from `pos` on give to an
/// address and a size, `a` and `s` being those given before, and where the properties
/// end.
pub open spec fn cells_from(b: Seq<u8>, h: FdtHeader, pos: int, a: u32, s: u32) -> Option<
    (u32, u32, int),
>
    decreases left(h, pos),
{
    if pos < 0 || !h.has(pos, 4) {
        None
    } else {
        let t = bytes::be32(b, pos);
        if t == FDT_PROP {
            if !h.has(pos, 12) {
                None
            } else {
                let len = bytes::be32(b, pos + 4);
                let nameoff = bytes::be32(b, pos + 8);
                let val = pos + 12;
                let is_a = is_prop_named(b, h, nameoff, ADDRESS_CELLS@) && len >= 4;
                let is_s = is_prop_named(b, h, nameoff, SIZE_CELLS@) && len >= 4;
                let word = bytes::be32(b, val) as u32;
                if !h.has(val, align4(len)) {
                    None
                } else {
                    cells_from(
                        b,
                        h,
                        val + align4(len),
                        if is_a && h.has(val, 4) {
                            word
                        } else {
                            a
                        },
                        if !is_a && is_s && h.has(val, 4) {
                            word
                        } else {
                            s
                        },
                    )
                }
            }
        } else if t == FDT_BEGIN_NODE || t == FDT_END_NODE || t == FDT_END {
            Some((a, s, pos))
        } else {
            cells_from(b, h, pos + 4, a, s)
        }
    }
}

fn root_cells(dtb: &[u8], h: &FdtHeader, start: u64) -> (r: Option<(u32, u32, u64)>)
    requires
        h.total_size <= dtb@.len(),
        start <= h.total_size + 3,
    ensures
        match r {
            Some((a, s, pos)) => cells_from(dtb@, *h, start as int, 2, 2) == Some(
                (a, s, pos as int),
            ) && start <= pos < h.total_size,
            None => cells_from(dtb@, *h, start as int, 2, 2) is None,
        },
{
    let mut pos: u64 = start;
    let mut addr_cells: u32 = 2;
    let mut size_cells: u32 = 2;
    let ghost b = dtb@;
    assert(dtb@.len() == dtb.len());
    loop
        invariant
            b == dtb@,
            h.total_size <= dtb.len(),
            start <= pos <= h.total_size + 3,
            cells_from(b, *h, start as int, 2, 2) == cells_from(
                b,
                *h,
                pos as int,
                addr_cells,
                size_cells,
            ),
        decreases left(*h, pos as int),
    {
        if !in_bounds(h, pos, 4) {
            return None;
        }
        let t: u32 = read_be_u32(dtb, pos as usize);
        if t == FDT_PROP {
            if !in_bounds(h, pos, 12) {
                return None;
            }
            let len: u32 = read_be_u32(dtb, pos as usize + 4);
            let nameoff: u32 = read_be_u32(dtb, pos as usize + 8);
            let val: u64 = pos + 12;
            if prop_named(dtb, h, nameoff, &ADDRESS_CELLS) && len >= 4 {
                if in_bounds(h, val, 4) {
                    addr_cells = read_be_u32(dtb, val as usize);
                }
            } else if prop_named(dtb, h, nameoff, &SIZE_CELLS) && len >= 4 {
                if in_bounds(h, val, 4) {
                    size_cells = read_be_u32(dtb, val as usize);
                }
            }
            let padded: u64 = align(len as u64);
            if !in_bounds(h, val, padded) {
                return None;
            }
            pos = val + padded;
        } else if t == FDT_BEGIN_NODE || t == FDT_END_NODE || t == FDT_END {
            return Some((addr_cells, size_cells, pos));
        } else {
            pos = pos + 4;
        }
    }
}

/// How many of `len` bytes are left from `offset` on.
pub open spec fn rest(len: int, offset: int) -> int {
    if offset < len {
        len - offset
    } else {
        0
    }
}

/// The pairs of an address of `a` cells and a size of `s` cells in the `len` bytes at
/// `val`, from `offset` on, behind those in `out`, and whether the bytes were all there.
/// There are no pairs of no cells.
pub open spec fn pairs_from(
    b: Seq<u8>,
    h: FdtHeader,
    val: int,
    len: int,
    a: int,
    s: int,
    offset: int,
    out: Seq<(u64, u64)>,
) -> (Seq<(u64, u64)>, bool)
    decreases rest(len, offset),
{
    if offset >= len {
        (out, true)
    } else if a < 0 || s < 0 || a + s == 0 || !h.has(val + offset, (a + s) * 4) {
        (out, false)
    } else {
        pairs_from(
            b,
            h,
            val,
            len,
            a,
            s,
            offset + a * 4 + s * 4,
            out.push(
                (
                    be_cells(b, val + offset, a) as u64,
                    be_cells(b, val + offset + a * 4, s) as u64,
                ),
            ),
        )
    }
}

/// Reads pairs of an address and a size. Tells whether the bytes were all there.
fn read_pairs(
    dtb: &[u8],
    h: &FdtHeader,
    val: u64,
    len: u32,
    addr_cells: u32,
    size_cells: u32,
    out: &mut Vec<(u64, u64)>,
) -> (r: bool)
    requires
        h.total_size <= dtb@.len(),
        val <= h.total_size,
    ensures
        (final(out)@, r) == pairs_from(
            dtb@,
            *h,
            val as int,
            len as int,
            addr_cells as int,
            size_cells as int,
            0,
            old(out)@,
        ),
{
    let ghost b = dtb@;
    let a: u64 = addr_cells as u64;
    let s: u64 = size_cells as u64;
    let mut offset: u64 = 0;
    while offset < len as u64
        invariant
            b == dtb@,
            h.total_size <= dtb@.len(),
            val <= h.total_size,
            val + offset <= h.total_size || offset == 0,
            a == addr_cells,
            s == size_cells,
            pairs_from(
                b,
                *h,
                val as int,
                len as int,
                a as int,
                s as int,
                0,
                old(out)@,
            ) == pairs_from(
                b,
                *h,
                val as int,
                len as int,
                a as int,
                s as int,
                offset as int,
                out@,
            ),
        decreases rest(len as int, offset as int),
    {
        if a + s == 0 || !in_bounds(h, val + offset, (a + s) * 4) {
            return false;
        }
        let addr: u64 = read_be_n(dtb, val + offset, a);
        let size: u64 = read_be_n(dtb, val + offset + a * 4, s);
        out.push((addr, size));
        offset = offset + a * 4 + s * 4;
    }
    true
}

/// The pairs that the properties `prop` of the nodes `node` under the root hold, from
/// `pos` on and behind those in `out`, and whether the structure was all there. `depth`
/// is the number of nodes that are open, and `inn` tells whether such a node is.
pub open spec fn walk_from(
    b: Seq<u8>,
    h: FdtHeader,
    pos: int,
    depth: int,
    inn: bool,
    node: Seq<u8>,
    prop: Seq<u8>,
    a: int,
    s: int,
    out: Seq<(u64, u64)>,
) -> (Seq<(u64, u64)>, bool)
    decreases left(h, pos),
{
    match token_at(b, h, pos) {
        Token::Begin { name, next } => if next <= pos {
            (out, false)
        } else {
            let now = if depth == 1 {
                text_at(b, name, node)
            } else {
                inn
            };
            walk_from(b, h, next, depth + 1, now, node, prop, a, s, out)
        },
        Token::End { next } => if depth <= 0 {
            (out, false)
        } else {
            walk_from(b, h, next, depth - 1, inn && depth != 2, node, prop, a, s, out)
        },
        Token::Prop { len, nameoff, val, after } => {
            let (more, ok) = if inn && is_prop_named(b, h, nameoff, prop) {
                pairs_from(b, h, val, len, a, s, 0, out)
            } else {
                (out, true)
            };
            match after {
                Some(n) => if ok && n > pos {
                    walk_from(b, h, n, depth, inn, node, prop, a, s, more)
                } else {
                    (more, false)
                },
                None => (more, false),
            }
        },
        Token::Finish => (out, true),
        Token::Other { next } => walk_from(b, h, next, depth, inn, node, prop, a, s, out),
        Token::Broken => (out, false),
    }
}

/// What `walk_dtb` finds in a blob.
pub open spec fn walked(b: Seq<u8>, node: Seq<u8>, prop: Seq<u8>) -> (Seq<(u64, u64)>, bool) {
    let none = Seq::<(u64, u64)>::empty();
    match header_of(b) {
        Some(h) => match root_start(b, h) {
            Some(start) => match cells_from(b, h, start, 2, 2) {
                Some((a, s, pos)) => walk_from(
                    b,
                    h,
                    pos,
                    1,
                    false,
                    node,
                    prop,
                    a as int,
                    s as int,
                    none,
                ),
                None => (none, false),
            },
            None => (none, false),
        },
        None => (none, false),
    }
}

/// Collects the pairs of an address and a size that the properties `prop_match` of the
/// nodes `node_match` under the root hold. Tells whether the structure was all there.
pub fn walk_dtb(dtb: &[u8], node_match: &[u8], prop_match: &[u8]) -> (r: (Vec<(u64, u64)>, bool))
    ensures
        (r.0@, r.1) == walked(dtb@, node_match@, prop_match@),
{
    let mut out: Vec<(u64, u64)> = Vec::new();
    let ghost b = dtb@;
    let h: FdtHeader = match fdt_parse_header(dtb) {
        Some(h) => h,
        None => return (out, false),
    };
    let start: u64 = match find_root(dtb, &h) {
        Some(p) => p,
        None => return (out, false),
    };
    let (addr_cells, size_cells, first): (u32, u32, u64) = match root_cells(dtb, &h, start) {
        Some(c) => c,
        None => return (out, false),
    };
    let mut pos: u64 = first;
    let mut depth: u64 = 1;
    let mut in_target = false;
    loop
        invariant
            b == dtb@,
            h.total_size <= dtb@.len(),
            1 <= pos <= h.total_size + 3,
            depth <= pos,
            walked(b, node_match@, prop_match@) == walk_from(
                b,
                h,
                pos as int,
                depth as int,
                in_target,
                node_match@,
                prop_match@,
                addr_cells as int,
                size_cells as int,
                out@,
            ),
        decreases left(h, pos as int),
    {
        match read_token(dtb, &h, pos) {
            Found::Begin { name, next } => {
                if depth == 1 {
                    in_target = fdt_str_eq(dtb, name, node_match);
                }
                depth = depth + 1;
                pos = next;
            },
            Found::End { next } => {
                if depth == 0 {
                    return (out, false);
                }
                if depth == 2 {
                    in_target = false;
                }
                depth = depth - 1;
                pos = next;
            },
            Found::Prop { len, nameoff, val, after } => {
                if in_target && prop_named(dtb, &h, nameoff, prop_match) {
                    if !read_pairs(dtb, &h, val, len, addr_cells, size_cells, &mut out) {
                        return (out, false);
                    }
                }
                match after {
                    Some(n) => {
                        pos = n;
                    },
                    None => return (out, false),
                }
            },
            Found::Finish => {
                return (out, true);
            },
            Found::Other { next } => {
                pos = next;
            },
            Found::Broken => {
                return (out, false);
            },
        }
    }
}

/// The properties `prop` of the nodes `node` under the root, each by its place and its
/// length, as `walk_from` comes to them.
pub open spec fn props_from(
    b: Seq<u8>,
    h: FdtHeader,
    pos: int,
    depth: int,
    inn: bool,
    node: Seq<u8>,
    prop: Seq<u8>,
    out: Seq<(u64, u32)>,
) -> (Seq<(u64, u32)>, bool)
    decreases left(h, pos),
{
    match token_at(b, h, pos) {
        Token::Begin { name, next } => if next <= pos {
            (out, false)
        } else {
            let now = if depth == 1 {
                text_at(b, name, node)
            } else {
                inn
            };
            props_from(b, h, next, depth + 1, now, node, prop, out)
        },
        Token::End { next } => if depth <= 0 {
            (out, false)
        } else {
            props_from(b, h, next, depth - 1, inn && depth != 2, node, prop, out)
        },
        Token::Prop { len, nameoff, val, after } => {
            let more = if inn && is_prop_named(b, h, nameoff, prop) {
                out.push((val as u64, len as u32))
            } else {
                out
            };
            match after {
                Some(n) => if n > pos {
                    props_from(b, h, n, depth, inn, node, prop, more)
                } else {
                    (more, false)
                },
                None => (more, false),
            }
        },
        Token::Finish => (out, true),
        Token::Other { next } => props_from(b, h, next, depth, inn, node, prop, out),
        Token::Broken => (out, false),
    }
}

/// What `walk_dtb_prop_raw` finds in a blob.
pub open spec fn props_walked(b: Seq<u8>, node: Seq<u8>, prop: Seq<u8>) -> (Seq<(u64, u32)>, bool) {
    let none = Seq::<(u64, u32)>::empty();
    match header_of(b) {
        Some(h) => match root_start(b, h) {
            Some(start) => props_from(b, h, start, 1, false, node, prop, none),
            None => (none, false),
        },
        None => (none, false),
    }
}

/// Collects the properties `prop_match` of the nodes `node_match` under the root, each by
/// its place in the blob and its length. Tells whether the structure was all there.
pub fn walk_dtb_prop_raw(dtb: &[u8], node_match: &[u8], prop_match: &[u8]) -> (r: (
    Vec<(u64, u32)>,
    bool,
))
    ensures
        (r.0@, r.1) == props_walked(dtb@, node_match@, prop_match@),
{
    let mut out: Vec<(u64, u32)> = Vec::new();
    let ghost b = dtb@;
    let h: FdtHeader = match fdt_parse_header(dtb) {
        Some(h) => h,
        None => return (out, false),
    };
    let mut pos: u64 = match find_root(dtb, &h) {
        Some(p) => p,
        None => return (out, false),
    };
    let mut depth: u64 = 1;
    let mut in_target = false;
    loop
        invariant
            b == dtb@,
            h.total_size <= dtb@.len(),
            1 <= pos <= h.total_size + 3,
            depth <= pos,
            props_walked(b, node_match@, prop_match@) == props_from(
                b,
                h,
                pos as int,
                depth as int,
                in_target,
                node_match@,
                prop_match@,
                out@,
            ),
        decreases left(h, pos as int),
    {
        match read_token(dtb, &h, pos) {
            Found::Begin { name, next } => {
                if depth == 1 {
                    in_target = fdt_str_eq(dtb, name, node_match);
                }
                depth = depth + 1;
                pos = next;
            },
            Found::End { next } => {
                if depth == 0 {
                    return (out, false);
                }
                if depth == 2 {
                    in_target = false;
                }
                depth = depth - 1;
                pos = next;
            },
            Found::Prop { len, nameoff, val, after } => {
                if in_target && prop_named(dtb, &h, nameoff, prop_match) {
                    out.push((val, len));
                }
                match after {
                    Some(n) => {
                        pos = n;
                    },
                    None => return (out, false),
                }
            },
            Found::Finish => {
                return (out, true);
            },
            Found::Other { next } => {
                pos = next;
            },
            Found::Broken => {
                return (out, false);
            },
        }
    }
}

/// The frequency that the first `n` of the properties give: the last one counts that is
/// long enough.
pub open spec fn hz_of(b: Seq<u8>, props: Seq<(u64, u32)>, n: int) -> int
    decreases n,
{
    if n <= 0 {
        0
    } else {
        let (val, len) = props[n - 1];
        if len >= 4 && val + 4 <= b.len() {
            bytes::be32(b, val as int)
        } else {
            hz_of(b, props, n - 1)
        }
    }
}

/// The frequency of the processors' time base: the property `timebase-frequency` of the
/// node `/cpus`. It is 0 where there is no blob, where the blob is malformed, or where
/// the property is missing.
pub fn timebase_hz(dtb: &[u8]) -> (r: u64)
    ensures
        ({
            let (props, all) = props_walked(dtb@, CPUS@, TIMEBASE@);
            r == if all {
                hz_of(dtb@, props, props.len() as int)
            } else {
                0
            }
        }),
{
    let (props, all): (Vec<(u64, u32)>, bool) = walk_dtb_prop_raw(dtb, &CPUS, &TIMEBASE);
    if !all {
        return 0;
    }
    let mut hz: u64 = 0;
    let mut i: usize = 0;
    while i < props.len()
        invariant
            i <= props@.len(),
            hz == hz_of(dtb@, props@, i as int),
        decreases props@.len() - i,
    {
        let (val, len) = props[i];
        if len >= 4 && dtb.len() >= 4 && val <= dtb.len() as u64 - 4 {
            hz = read_be_u32(dtb, val as usize) as u64;
        }
        i = i + 1;
    }
    hz
}

/// A small region at the very start of memory is the firmware's.
pub open spec fn region_of(addr: u64, size: u64) -> MemoryRegion {
    MemoryRegion {
        base: addr,
        size,
        kind: if addr == 0x80000000 && size <= 0x100000 {
            MemoryRegionKind::Reserved
        } else {
            MemoryRegionKind::Usable
        },
    }
}

/// The regions that the first `n` of the pairs give, behind those in `out`. Empty ones are
/// left out, and no more than there is room for are kept.
pub open spec fn regions_of(pairs: Seq<(u64, u64)>, n: int, out: Seq<MemoryRegion>) -> Seq<
    MemoryRegion,
>
    decreases n,
{
    if n <= 0 {
        out
    } else {
        let so_far = regions_of(pairs, n - 1, out);
        let (addr, size) = pairs[n - 1];
        if size > 0 && so_far.len() < MAX_MEMORY_REGIONS {
            so_far.push(region_of(addr, size))
        } else {
            so_far
        }
    }
}

fn add_regions(pairs: &Vec<(u64, u64)>, out: &mut Vec<MemoryRegion>)
    requires
        old(out)@.len() <= MAX_MEMORY_REGIONS,
    ensures
        final(out)@ == regions_of(pairs@, pairs@.len() as int, old(out)@),
        final(out)@.len() <= MAX_MEMORY_REGIONS,
{
    let mut i: usize = 0;
    while i < pairs.len()
        invariant
            i <= pairs@.len(),
            out@ == regions_of(pairs@, i as int, old(out)@),
            out@.len() <= MAX_MEMORY_REGIONS,
        decreases pairs@.len() - i,
    {
        let (addr, size) = pairs[i];
        if size > 0 && out.len() < MAX_MEMORY_REGIONS {
            let kind = if addr == 0x80000000 && size <= 0x100000 {
                MemoryRegionKind::Reserved
            } else {
                MemoryRegionKind::Usable
            };
            out.push(MemoryRegion { base: addr, size, kind });
        }
        i = i + 1;
    }
}

/// The node is one that describes memory.
pub open spec fn is_memory_node(b: Seq<u8>, name: int) -> bool {
    text_at(b, name, MEMORY@) || text_at(b, name, MEMORY_AT@)
}

/// The memory regions from `pos` on, behind those in `out`.
pub open spec fn memory_from(
    b: Seq<u8>,
    h: FdtHeader,
    pos: int,
    depth: int,
    inn: bool,
    a: int,
    s: int,
    out: Seq<MemoryRegion>,
) -> Seq<MemoryRegion>
    decreases left(h, pos),
{
    match token_at(b, h, pos) {
        Token::Begin { name, next } => if next <= pos {
            out
        } else {
            let now = if depth == 1 {
                is_memory_node(b, name)
            } else {
                inn
            };
            memory_from(b, h, next, depth + 1, now, a, s, out)
        },
        Token::End { next } => if depth <= 0 {
            out
        } else {
            memory_from(b, h, next, depth - 1, inn && depth != 2, a, s, out)
        },
        Token::Prop { len, nameoff, val, after } => {
            let more = if inn && is_prop_named(b, h, nameoff, REG@) {
                let pairs = pairs_from(b, h, val, len, a, s, 0, Seq::empty()).0;
                regions_of(pairs, pairs.len() as int, out)
            } else {
                out
            };
            match after {
                Some(n) => if n > pos {
                    memory_from(b, h, n, depth, inn, a, s, more)
                } else {
                    more
                },
                None => more,
            }
        },
        Token::Finish => out,
        Token::Other { next } => memory_from(b, h, next, depth, inn, a, s, out),
        Token::Broken => out,
    }
}

/// The memory of a machine that does not describe it.
pub open spec fn default_memory() -> Seq<MemoryRegion> {
    seq![
        MemoryRegion { base: 0x80050000, size: 0x0FFB0000, kind: MemoryRegionKind::Usable },
        MemoryRegion { base: 0x00100000, size: 0x00001000, kind: MemoryRegionKind::Reserved },
        MemoryRegion { base: 0x80000000, size: 0x00050000, kind: MemoryRegionKind::Reserved },
    ]
}

fn fallback_memory() -> (r: Vec<MemoryRegion>)
    ensures
        r@ == default_memory(),
{
    let mut v: Vec<MemoryRegion> = Vec::new();
    v.push(
        MemoryRegion { base: 0x80050000, size: 0x0FFB0000, kind: MemoryRegionKind::Usable },
    );
    v.push(
        MemoryRegion { base: 0x00100000, size: 0x00001000, kind: MemoryRegionKind::Reserved },
    );
    v.push(
        MemoryRegion { base: 0x80000000, size: 0x00050000, kind: MemoryRegionKind::Reserved },
    );
    assert(v@ =~= default_memory());
    v
}

/// The memory regions that a blob describes.
pub open spec fn described_memory(b: Seq<u8>) -> Seq<MemoryRegion> {
    match header_of(b) {
        Some(h) => match root_start(b, h) {
            Some(start) => match cells_from(b, h, start, 2, 2) {
                Some((a, s, pos)) => memory_from(
                    b,
                    h,
                    pos,
                    1,
                    false,
                    a as int,
                    s as int,
                    Seq::empty(),
                ),
                None => Seq::empty(),
            },
            None => Seq::empty(),
        },
        None => Seq::empty(),
    }
}

/// The memory of the machine: what the blob describes, or what is usual where it
/// describes none.
pub fn parse_memory(dtb: &[u8]) -> (r: Vec<MemoryRegion>)
    ensures
        r@ == if described_memory(dtb@).len() > 0 {
            described_memory(dtb@)
        } else {
            default_memory()
        },
{
    let found: Vec<MemoryRegion> = collect_memory(dtb);
    if found.len() > 0 {
        found
    } else {
        fallback_memory()
    }
}

fn collect_memory(dtb: &[u8]) -> (out: Vec<MemoryRegion>)
    ensures
        out@ == described_memory(dtb@),
        out@.len() <= MAX_MEMORY_REGIONS,
{
    let mut out: Vec<MemoryRegion> = Vec::new();
    let ghost b = dtb@;
    let h: FdtHeader = match fdt_parse_header(dtb) {
        Some(h) => h,
        None => return out,
    };
    let start: u64 = match find_root(dtb, &h) {
        Some(p) => p,
        None => return out,
    };
    let (addr_cells, size_cells, first): (u32, u32, u64) = match root_cells(dtb, &h, start) {
        Some(c) => c,
        None => return out,
    };
    let mut pos: u64 = first;
    let mut depth: u64 = 1;
    let mut in_memory = false;
    loop
        invariant
            b == dtb@,
            h.total_size <= dtb@.len(),
            1 <= pos <= h.total_size + 3,
            depth <= pos,
            out@.len() <= MAX_MEMORY_REGIONS,
            described_memory(b) == memory_from(
                b,
                h,
                pos as int,
                depth as int,
                in_memory,
                addr_cells as int,
                size_cells as int,
                out@,
            ),
        decreases left(h, pos as int),
    {
        match read_token(dtb, &h, pos) {
            Found::Begin { name, next } => {
                if depth == 1 {
                    in_memory = fdt_str_eq(dtb, name, &MEMORY) || fdt_str_eq(dtb, name, &MEMORY_AT);
                }
                depth = depth + 1;
                pos = next;
            },
            Found::End { next } => {
                if depth == 0 {
                    return out;
                }
                if depth == 2 {
                    in_memory = false;
                }
                depth = depth - 1;
                pos = next;
            },
            Found::Prop { len, nameoff, val, after } => {
                if in_memory && prop_named(dtb, &h, nameoff, &REG) {
                    let mut pairs: Vec<(u64, u64)> = Vec::new();
                    let _ = read_pairs(dtb, &h, val, len, addr_cells, size_cells, &mut pairs);
                    add_regions(&pairs, &mut out);
                }
                match after {
                    Some(n) => {
                        pos = n;
                    },
                    None => return out,
                }
            },
            Found::Finish => {
                return out;
            },
            Found::Other { next } => {
                pos = next;
            },
            Found::Broken => {
                return out;
            },
        }
    }
}

/// The address in a property of `len` bytes at `val`: eight bytes make one of 64 bits,
/// any other number one of 32.
pub open spec fn address_in(b: Seq<u8>, val: int, len: int) -> Option<int> {
    if len == 8 && val + 8 <= b.len() {
        Some(bytes::be64(b, val))
    } else if len >= 4 && len != 8 && val + 4 <= b.len() {
        Some(bytes::be32(b, val))
    } else {
        None
    }
}

/// The first property `acpi-rsdp` of the node `/chosen` from `pos` on; 0 where there is
/// none.
pub open spec fn rsdp_from(b: Seq<u8>, h: FdtHeader, pos: int, depth: int, inn: bool) -> int
    decreases left(h, pos),
{
    match token_at(b, h, pos) {
        Token::Begin { name, next } => if next <= pos {
            0
        } else {
            let now = if depth == 1 {
                text_at(b, name, CHOSEN@)
            } else {
                inn
            };
            rsdp_from(b, h, next, depth + 1, now)
        },
        Token::End { next } => if depth <= 0 {
            0
        } else {
            rsdp_from(b, h, next, depth - 1, inn && depth != 2)
        },
        Token::Prop { len, nameoff, val, after } => if inn && is_prop_named(
            b,
            h,
            nameoff,
            ACPI_RSDP@,
        ) && address_in(b, val, len) is Some {
            address_in(b, val, len)->0
        } else {
            match after {
                Some(n) => if n > pos {
                    rsdp_from(b, h, n, depth, inn)
                } else {
                    0
                },
                None => 0,
            }
        },
        Token::Finish => 0,
        Token::Other { next } => rsdp_from(b, h, next, depth, inn),
        Token::Broken => 0,
    }
}

/// Where the firmware says its tables begin.
pub open spec fn rsdp_of(b: Seq<u8>) -> int {
    match header_of(b) {
        Some(h) => match root_start(b, h) {
            Some(start) => rsdp_from(b, h, start, 1, false),
            None => 0,
        },
        None => 0,
    }
}

fn read_address(dtb: &[u8], val: u64, len: u32) -> (r: Option<u64>)
    requires
        val <= 0x1_0000_0000,
    ensures
        match r {
            Some(v) => address_in(dtb@, val as int, len as int) == Some(v as int),
            None => address_in(dtb@, val as int, len as int) is None,
        },
{
    let n: u64 = dtb.len() as u64;
    if len == 8 && val + 8 <= n {
        Some(bytes::read_be_u64(dtb, val as usize))
    } else if len >= 4 && len != 8 && val + 4 <= n {
        Some(read_be_u32(dtb, val as usize) as u64)
    } else {
        None
    }
}

/// The address of the firmware's root table, as the node `/chosen` gives it; 0 where it
/// gives none.
pub fn find_rsdp(dtb: &[u8]) -> (r: u64)
    ensures
        r == rsdp_of(dtb@),
{
    let ghost b = dtb@;
    let h: FdtHeader = match fdt_parse_header(dtb) {
        Some(h) => h,
        None => return 0,
    };
    let mut pos: u64 = match find_root(dtb, &h) {
        Some(p) => p,
        None => return 0,
    };
    let mut depth: u64 = 1;
    let mut in_chosen = false;
    loop
        invariant
            b == dtb@,
            h.total_size <= dtb@.len(),
            1 <= pos <= h.total_size + 3,
            depth <= pos,
            rsdp_of(b) == rsdp_from(b, h, pos as int, depth as int, in_chosen),
        decreases left(h, pos as int),
    {
        match read_token(dtb, &h, pos) {
            Found::Begin { name, next } => {
                if depth == 1 {
                    in_chosen = fdt_str_eq(dtb, name, &CHOSEN);
                }
                depth = depth + 1;
                pos = next;
            },
            Found::End { next } => {
                if depth == 0 {
                    return 0;
                }
                if depth == 2 {
                    in_chosen = false;
                }
                depth = depth - 1;
                pos = next;
            },
            Found::Prop { len, nameoff, val, after } => {
                if in_chosen && prop_named(dtb, &h, nameoff, &ACPI_RSDP) {
                    match read_address(dtb, val, len) {
                        Some(v) => return v,
                        None => {},
                    }
                }
                match after {
                    Some(n) => {
                        pos = n;
                    },
                    None => return 0,
                }
            },
            Found::Finish => {
                return 0;
            },
            Found::Other { next } => {
                pos = next;
            },
            Found::Broken => {
                return 0;
            },
        }
    }
}

/// What the properties of a node say of a processor.
#[derive(Clone, Copy)]
pub struct CpuNode {
    pub hart_id: u32,
    pub enabled: bool,
    pub is_cpu: bool,
}

/// What the property of `len` bytes at `val` adds to what is known of a processor.
pub open spec fn cpu_with(
    b: Seq<u8>,
    h: FdtHeader,
    c: CpuNode,
    nameoff: int,
    val: int,
    len: int,
) -> CpuNode {
    let is_type = is_prop_named(b, h, nameoff, DEVICE_TYPE@) && len >= 3 && h.has(val, 3);
    let is_reg = is_prop_named(b, h, nameoff, REG@) && len >= 4;
    let is_status = is_prop_named(b, h, nameoff, STATUS@) && len >= 1;
    CpuNode {
        hart_id: if is_reg && h.has(val, 4) {
            bytes::be32(b, val) as u32
        } else {
            c.hart_id
        },
        enabled: if !is_reg && is_status && h.has(val, 1) {
            text_at(b, val, OKAY@)
        } else {
            c.enabled
        },
        is_cpu: if is_type {
            b[val] == 99 && b[val + 1] == 112 && b[val + 2] == 117
        } else {
            c.is_cpu
        },
    }
}

/// What the properties from `pos` on add to what is known of a processor, and where they
/// end.
pub open spec fn cpu_from(b: Seq<u8>, h: FdtHeader, pos: int, c: CpuNode) -> (CpuNode, int)
    decreases left(h, pos),
{
    if pos < 0 || !h.has(pos, 4) {
        (c, pos)
    } else {
        let t = bytes::be32(b, pos);
        if t == FDT_PROP {
            if !h.has(pos, 12) {
                (c, pos)
            } else {
                let len = bytes::be32(b, pos + 4);
                let next = cpu_with(b, h, c, bytes::be32(b, pos + 8), pos + 12, len);
                if !h.has(pos + 12, align4(len)) {
                    (next, pos + 12)
                } else {
                    cpu_from(b, h, pos + 12 + align4(len), next)
                }
            }
        } else if t == FDT_BEGIN_NODE || t == FDT_END_NODE || t == FDT_END {
            (c, pos)
        } else {
            cpu_from(b, h, pos + 4, c)
        }
    }
}

fn read_cpu(dtb: &[u8], h: &FdtHeader, start: u64) -> (r: (CpuNode, u64))
    requires
        h.total_size <= dtb@.len(),
        start <= h.total_size + 3,
    ensures
        (r.0, r.1 as int) == cpu_from(
            dtb@,
            *h,
            start as int,
            (CpuNode { hart_id: 0, enabled: true, is_cpu: false }),
        ),
        start <= r.1 <= h.total_size + 3,
{
    let ghost b = dtb@;
    let mut c = CpuNode { hart_id: 0, enabled: true, is_cpu: false };
    let ghost c0 = c;
    let mut pos: u64 = start;
    assert(dtb@.len() == dtb.len());
    loop
        invariant
            b == dtb@,
            h.total_size <= dtb.len(),
            start <= pos <= h.total_size + 3,
            c0 == (CpuNode { hart_id: 0, enabled: true, is_cpu: false }),
            cpu_from(b, *h, start as int, c0) == cpu_from(b, *h, pos as int, c),
        decreases left(*h, pos as int),
    {
        if !in_bounds(h, pos, 4) {
            return (c, pos);
        }
        let t: u32 = read_be_u32(dtb, pos as usize);
        if t == FDT_PROP {
            if !in_bounds(h, pos, 12) {
                return (c, pos);
            }
            let len: u32 = read_be_u32(dtb, pos as usize + 4);
            let nameoff: u32 = read_be_u32(dtb, pos as usize + 8);
            let val: u64 = pos + 12;
            if prop_named(dtb, h, nameoff, &DEVICE_TYPE) && len >= 3 {
                if in_bounds(h, val, 3) {
                    let v: usize = val as usize;
                    c.is_cpu = dtb[v] == 99 && dtb[v + 1] == 112 && dtb[v + 2] == 117;
                }
            }
            if prop_named(dtb, h, nameoff, &REG) && len >= 4 {
                if in_bounds(h, val, 4) {
                    c.hart_id = read_be_u32(dtb, val as usize);
                }
            } else if prop_named(dtb, h, nameoff, &STATUS) && len >= 1 {
                if in_bounds(h, val, 1) {
                    c.enabled = fdt_str_eq(dtb, val, &OKAY);
                }
            }
            let padded: u64 = align(len as u64);
            if !in_bounds(h, val, padded) {
                return (c, val);
            }
            pos = val + padded;
        } else if t == FDT_BEGIN_NODE || t == FDT_END_NODE || t == FDT_END {
            return (c, pos);
        } else {
            pos = pos + 4;
        }
    }
}

/// The processors under `/cpus` from `pos` on, behind those in `out`.
pub open spec fn cpus_from(
    b: Seq<u8>,
    h: FdtHeader,
    pos: int,
    depth: int,
    inn: bool,
    out: Seq<(u32, bool)>,
) -> Seq<(u32, bool)>
    decreases left(h, pos),
{
    match token_at(b, h, pos) {
        Token::Begin { name, next } => {
            let now = inn || (depth == 1 && text_at(b, name, CPUS@));
            if next <= pos {
                out
            } else if depth == 2 && inn {
                let (c, end) = cpu_from(
                    b,
                    h,
                    next,
                    CpuNode { hart_id: 0, enabled: true, is_cpu: false },
                );
                if end <= pos {
                    out
                } else {
                    cpus_from(
                        b,
                        h,
                        end,
                        3,
                        inn,
                        if c.is_cpu {
                            out.push((c.hart_id, c.enabled))
                        } else {
                            out
                        },
                    )
                }
            } else {
                cpus_from(b, h, next, depth + 1, now, out)
            }
        },
        Token::End { next } => if depth <= 0 {
            out
        } else {
            cpus_from(b, h, next, depth - 1, inn && depth != 2, out)
        },
        Token::Prop { len, nameoff, val, after } => match after {
            Some(n) => if n > pos {
                cpus_from(b, h, n, depth, inn, out)
            } else {
                out
            },
            None => out,
        },
        Token::Finish => out,
        Token::Other { next } => cpus_from(b, h, next, depth, inn, out),
        Token::Broken => out,
    }
}

/// The processors that a blob describes.
pub open spec fn cpus_of(b: Seq<u8>) -> Seq<(u32, bool)> {
    match header_of(b) {
        Some(h) => match root_start(b, h) {
            Some(start) => cpus_from(b, h, start, 1, false, Seq::empty()),
            None => Seq::empty(),
        },
        None => Seq::empty(),
    }
}

/// The processors under `/cpus`, each by its hart number, from the property `reg`, and
/// whether it is enabled: its property `status` is `okay`, or it has none.
pub fn parse_cpus(dtb: &[u8]) -> (cpus: Vec<(u32, bool)>)
    ensures
        cpus@ == cpus_of(dtb@),
{
    let mut cpus: Vec<(u32, bool)> = Vec::new();
    let ghost b = dtb@;
    let h: FdtHeader = match fdt_parse_header(dtb) {
        Some(h) => h,
        None => return cpus,
    };
    let mut pos: u64 = match find_root(dtb, &h) {
        Some(p) => p,
        None => return cpus,
    };
    let mut depth: u64 = 1;
    let mut in_cpus = false;
    loop
        invariant
            b == dtb@,
            h.total_size <= dtb@.len(),
            1 <= pos <= h.total_size + 3,
            depth <= pos,
            cpus_of(b) == cpus_from(b, h, pos as int, depth as int, in_cpus, cpus@),
        decreases left(h, pos as int),
    {
        match read_token(dtb, &h, pos) {
            Found::Begin { name, next } => {
                if depth == 1 && fdt_str_eq(dtb, name, &CPUS) {
                    in_cpus = true;
                    depth = depth + 1;
                    pos = next;
                } else if depth == 2 && in_cpus {
                    let (c, end): (CpuNode, u64) = read_cpu(dtb, &h, next);
                    if c.is_cpu {
                        cpus.push((c.hart_id, c.enabled));
                    }
                    depth = depth + 1;
                    pos = end;
                } else {
                    depth = depth + 1;
                    pos = next;
                }
            },
            Found::End { next } => {
                if depth == 0 {
                    return cpus;
                }
                if depth == 2 {
                    in_cpus = false;
                }
                depth = depth - 1;
                pos = next;
            },
            Found::Prop { len, nameoff, val, after } => {
                match after {
                    Some(n) => {
                        pos = n;
                    },
                    None => return cpus,
                }
            },
            Found::Finish => {
                return cpus;
            },
            Found::Other { next } => {
                pos = next;
            },
            Found::Broken => {
                return cpus;
            },
        }
    }
}

} // verus!
