//! Attributes of MFT records.

use crate::bytes::{read_le_u16, read_le_u32, read_le_u64, sub_vec};
use crate::vfs::VfsError;
use vstd::prelude::*;

verus! {

pub const ATTR_ATTRIBUTE_LIST: u32 = 0x20;

pub const ATTR_FILE_NAME: u32 = 0x30;

pub const ATTR_DATA: u32 = 0x80;

pub const ATTR_INDEX_ROOT: u32 = 0x90;

pub const ATTR_INDEX_ALLOCATION: u32 = 0xA0;

pub const ATTR_BITMAP: u32 = 0xB0;

pub const ATTR_END: u32 = 0xFFFF_FFFF;

/// The flags of an attribute that is compressed or encrypted.
pub const FLAGS_UNSUPPORTED: u16 = 0x4001;

/// The flag of a directory in a file name.
pub const FILE_NAME_INDEX_PRESENT: u32 = 0x1000_0000;

/// The number of values of the record number in a reference: its low 48 bits. The
/// others hold a sequence number.
pub const MFT_REF_LIMIT: u64 = 0x1_0000_0000_0000;

pub const MAX_ATTRS: usize = 256;

/// The record number in a reference.
pub open spec fn record_no(r: int) -> int {
    r % MFT_REF_LIMIT as int
}

/// There are `n` bytes at `o`.
pub open spec fn has_at(d: Seq<u8>, o: int, n: int) -> bool {
    o + n <= d.len()
}

pub fn u16_at(d: &[u8], o: usize) -> (r: Option<u16>)
    ensures
        match r {
            Some(v) => has_at(d@, o as int, 2) && v == crate::bytes::le16(d@, o as int),
            None => !has_at(d@, o as int, 2),
        },
{
    assert(d@.len() == d.len());
    if o <= d.len() && d.len() - o >= 2 {
        Some(read_le_u16(d, o))
    } else {
        None
    }
}

pub fn u32_at(d: &[u8], o: usize) -> (r: Option<u32>)
    ensures
        match r {
            Some(v) => has_at(d@, o as int, 4) && v == crate::bytes::le32(d@, o as int),
            None => !has_at(d@, o as int, 4),
        },
{
    assert(d@.len() == d.len());
    if o <= d.len() && d.len() - o >= 4 {
        Some(read_le_u32(d, o))
    } else {
        None
    }
}

pub fn u64_at(d: &[u8], o: usize) -> (r: Option<u64>)
    ensures
        match r {
            Some(v) => has_at(d@, o as int, 8) && v == crate::bytes::le64(d@, o as int),
            None => !has_at(d@, o as int, 8),
        },
{
    assert(d@.len() == d.len());
    if o <= d.len() && d.len() - o >= 8 {
        Some(read_le_u64(d, o))
    } else {
        None
    }
}

/// The UTF-16 units in bytes; an odd byte at the end is left out.
pub open spec fn units_of(b: Seq<u8>) -> Seq<u16> {
    Seq::new((b.len() / 2) as nat, |i: int| crate::bytes::le16(b, 2 * i) as u16)
}

/// The text of bytes in UTF-16.
pub open spec fn text_of(b: Seq<u8>) -> Seq<char> {
    crate::text::utf16_lossy(units_of(b))
}

/// The text of bytes in UTF-16.
pub fn decode_utf16le(units: &[u8]) -> (r: String)
    ensures
        r@ == text_of(units@),
{
    assert(units@.len() == units.len());
    let mut words: Vec<u16> = Vec::new();
    let mut i: usize = 0;
    let n: usize = units.len() / 2;
    while i < n
        invariant
            units@.len() == units.len(),
            n == units@.len() / 2,
            i <= n,
            words@.len() == i,
            forall|k: int| 0 <= k < i ==> #[trigger] words@[k] == units_of(units@)[k],
        decreases n - i,
    {
        words.push(read_le_u16(units, 2 * i));
        i = i + 1;
    }
    assert(words@ =~= units_of(units@));
    crate::text::from_utf16(&words)
}

/// An attribute. One that is resident has its value in the record; of another, the
/// record holds the mapping pairs, from `map_off` to `map_end`.
pub struct Attr {
    pub attr_type: u32,
    pub name: Option<String>,
    pub flags: u16,
    pub resident: bool,
    pub value: Vec<u8>,
    pub lowest_vcn: u64,
    pub highest_vcn: u64,
    pub map_off: usize,
    pub map_end: usize,
    pub real_size: u64,
    pub init_size: u64,
}

#[verifier::ext_equal]
pub struct AttrView {
    pub attr_type: u32,
    pub name: Option<Seq<char>>,
    pub flags: u16,
    pub resident: bool,
    pub value: Seq<u8>,
    pub lowest_vcn: u64,
    pub highest_vcn: u64,
    pub map_off: usize,
    pub map_end: usize,
    pub real_size: u64,
    pub init_size: u64,
}

/// A name that may be missing.
pub open spec fn name_view(n: Option<String>) -> Option<Seq<char>> {
    match n {
        Some(s) => Some(s@),
        None => None,
    }
}

impl View for Attr {
    type V = AttrView;

    open spec fn view(&self) -> AttrView {
        AttrView {
            attr_type: self.attr_type,
            name: name_view(self.name),
            flags: self.flags,
            resident: self.resident,
            value: self.value@,
            lowest_vcn: self.lowest_vcn,
            highest_vcn: self.highest_vcn,
            map_off: self.map_off,
            map_end: self.map_end,
            real_size: self.real_size,
            init_size: self.init_size,
        }
    }
}

pub open spec fn attr_views(v: Seq<Attr>) -> Seq<AttrView> {
    Seq::new(v.len(), |i: int| v[i]@)
}

/// The length of the attribute at `pos`.
pub open spec fn attr_len(rec: Seq<u8>, pos: int) -> int {
    crate::bytes::le32(rec, pos + 4)
}

/// The name of the attribute at `pos` lies within it.
pub open spec fn name_fits(rec: Seq<u8>, pos: int) -> bool {
    rec[pos + 9] == 0 || crate::bytes::le16(rec, pos + 0x0A) + rec[pos + 9] * 2 <= attr_len(
        rec,
        pos,
    )
}

/// The name of the attribute at `pos`.
pub open spec fn name_at(rec: Seq<u8>, pos: int) -> Option<Seq<char>> {
    let from = pos + crate::bytes::le16(rec, pos + 0x0A);
    if rec[pos + 9] == 0 {
        None
    } else {
        Some(text_of(rec.subrange(from, from + rec[pos + 9] * 2)))
    }
}

/// The attribute at `pos`, if it is well formed. Its length has been looked at.
pub open spec fn attr_at(rec: Seq<u8>, pos: int) -> Option<AttrView> {
    let len = attr_len(rec, pos);
    if !name_fits(rec, pos) {
        None
    } else if rec[pos + 8] != 0 {
        let map = crate::bytes::le16(rec, pos + 0x20);
        if len < 0x40 || map < 0x40 || map >= len {
            None
        } else {
            Some(
                AttrView {
                    attr_type: crate::bytes::le32(rec, pos) as u32,
                    name: name_at(rec, pos),
                    flags: crate::bytes::le16(rec, pos + 0x0C) as u16,
                    resident: false,
                    value: Seq::empty(),
                    lowest_vcn: crate::bytes::le64(rec, pos + 0x10) as u64,
                    highest_vcn: crate::bytes::le64(rec, pos + 0x18) as u64,
                    map_off: (pos + map) as usize,
                    map_end: (pos + len) as usize,
                    real_size: crate::bytes::le64(rec, pos + 0x30) as u64,
                    init_size: crate::bytes::le64(rec, pos + 0x38) as u64,
                },
            )
        }
    } else {
        let vlen = crate::bytes::le32(rec, pos + 0x10);
        let voff = crate::bytes::le16(rec, pos + 0x14);
        if voff + vlen > len {
            None
        } else {
            Some(
                AttrView {
                    attr_type: crate::bytes::le32(rec, pos) as u32,
                    name: name_at(rec, pos),
                    flags: crate::bytes::le16(rec, pos + 0x0C) as u16,
                    resident: true,
                    value: rec.subrange(pos + voff, pos + voff + vlen),
                    lowest_vcn: 0,
                    highest_vcn: 0,
                    map_off: 0,
                    map_end: 0,
                    real_size: vlen as u64,
                    init_size: vlen as u64,
                },
            )
        }
    }
}

/// What is left of a record from `pos` on.
pub open spec fn rest(end: int, pos: int) -> nat {
    if pos < end {
        (end - pos) as nat
    } else {
        0
    }
}

/// The attributes of a record from `pos` on, behind `n` others; nothing where one
/// is malformed or there are too many.
pub open spec fn attrs_from(rec: Seq<u8>, pos: int, end: int, n: nat) -> Option<Seq<AttrView>>
    decreases rest(end, pos),
{
    if pos + 8 > end {
        Some(Seq::empty())
    } else if n >= MAX_ATTRS {
        None
    } else if crate::bytes::le32(rec, pos) == ATTR_END {
        Some(Seq::empty())
    } else if attr_len(rec, pos) < 0x18 || pos + attr_len(rec, pos) > end {
        None
    } else {
        match (attr_at(rec, pos), attrs_from(rec, pos + attr_len(rec, pos), end, n + 1)) {
            (Some(a), Some(more)) => Some(seq![a] + more),
            (_, _) => None,
        }
    }
}

/// The end of a record's attributes: what it has allocated, within its bytes.
pub open spec fn attrs_end(rec: Seq<u8>) -> int {
    if crate::bytes::le32(rec, 0x1C) < rec.len() {
        crate::bytes::le32(rec, 0x1C)
    } else {
        rec.len() as int
    }
}

/// The attributes of a record, if it is well formed.
pub open spec fn attrs_of(rec: Seq<u8>) -> Option<Seq<AttrView>> {
    let first = crate::bytes::le16(rec, 0x14);
    if rec.len() < 0x2C || first < 0x18 || first >= attrs_end(rec) {
        None
    } else {
        attrs_from(rec, first, attrs_end(rec), 0)
    }
}

/// Reads the attribute at `pos`, whose length `len` has been looked at.
fn read_attr(record: &Vec<u8>, pos: usize, len: usize) -> (r: Option<Attr>)
    requires
        len == attr_len(record@, pos as int),
        len >= 0x18,
        pos + len <= record@.len(),
    ensures
        match attr_at(record@, pos as int) {
            Some(v) => r is Some && r->0@ == v,
            None => r is None,
        },
{
    assert(record@.len() == record.len());
    let t: u32 = read_le_u32(record, pos);
    let nonresident: bool = record[pos + 8] != 0;
    let name_len: usize = record[pos + 9] as usize;
    let name_off: usize = read_le_u16(record, pos + 0x0A) as usize;
    let flags: u16 = read_le_u16(record, pos + 0x0C);
    let name: Option<String> = if name_len == 0 {
        None
    } else {
        if name_off + name_len * 2 > len {
            return None;
        }
        let bytes: Vec<u8> = sub_vec(record, pos + name_off, pos + name_off + name_len * 2);
        Some(decode_utf16le(&bytes))
    };
    if nonresident {
        if len < 0x40 {
            return None;
        }
        let map_off: usize = read_le_u16(record, pos + 0x20) as usize;
        if map_off < 0x40 || map_off >= len {
            return None;
        }
        let a = Attr {
            attr_type: t,
            name,
            flags,
            resident: false,
            value: Vec::new(),
            lowest_vcn: read_le_u64(record, pos + 0x10),
            highest_vcn: read_le_u64(record, pos + 0x18),
            map_off: pos + map_off,
            map_end: pos + len,
            real_size: read_le_u64(record, pos + 0x30),
            init_size: read_le_u64(record, pos + 0x38),
        };
        assert(a@ =~= attr_at(record@, pos as int)->0);
        Some(a)
    } else {
        let vlen: usize = read_le_u32(record, pos + 0x10) as usize;
        let voff: usize = read_le_u16(record, pos + 0x14) as usize;
        if vlen > len || voff > len - vlen {
            return None;
        }
        let a = Attr {
            attr_type: t,
            name,
            flags,
            resident: true,
            value: sub_vec(record, pos + voff, pos + voff + vlen),
            lowest_vcn: 0,
            highest_vcn: 0,
            map_off: 0,
            map_end: 0,
            real_size: vlen as u64,
            init_size: vlen as u64,
        };
        assert(a@ =~= attr_at(record@, pos as int)->0);
        Some(a)
    }
}

/// The attributes of an MFT record.
pub fn iter_attrs(record: &Vec<u8>) -> (r: Result<Vec<Attr>, VfsError>)
    ensures
        match attrs_of(record@) {
            Some(v) => r is Ok && attr_views(r->Ok_0@) == v,
            None => r == Err::<Vec<Attr>, VfsError>(VfsError::IOError),
        },
{
    if record.len() < 0x2C {
        return Err(VfsError::IOError);
    }
    let first: usize = read_le_u16(record, 0x14) as usize;
    let allocated: u64 = read_le_u32(record, 0x1C) as u64;
    let end: usize = if allocated < record.len() as u64 {
        allocated as usize
    } else {
        record.len()
    };
    if first < 0x18 || first >= end {
        return Err(VfsError::IOError);
    }
    let mut out: Vec<Attr> = Vec::new();
    let mut pos: usize = first;
    let ghost whole = attrs_of(record@);
    assert(attr_views(out@) =~= Seq::<AttrView>::empty());
    assert(attrs_from(record@, pos as int, end as int, 0) is Some ==> attr_views(out@)
        + attrs_from(record@, pos as int, end as int, 0)->0 =~= whole->0);
    while pos <= end && end - pos >= 8
        invariant
            end <= record@.len(),
            whole == attrs_of(record@),
            out@.len() <= MAX_ATTRS,
            whole is Some <==> attrs_from(record@, pos as int, end as int, out@.len()) is Some,
            whole is Some ==> whole->0 == attr_views(out@) + attrs_from(
                record@,
                pos as int,
                end as int,
                out@.len(),
            )->0,
        ensures
            whole is Some,
            whole->0 == attr_views(out@),
        decreases rest(end as int, pos as int),
    {
        if out.len() >= MAX_ATTRS {
            return Err(VfsError::IOError);
        }
        if read_le_u32(record, pos) == ATTR_END {
            assert(attr_views(out@) + Seq::<AttrView>::empty() =~= attr_views(out@));
            break;
        }
        let len: u64 = read_le_u32(record, pos + 4) as u64;
        if len < 0x18 || len > (end - pos) as u64 {
            return Err(VfsError::IOError);
        }
        let len: usize = len as usize;
        match read_attr(record, pos, len) {
            None => {
                return Err(VfsError::IOError);
            },
            Some(a) => {
                let ghost before = attr_views(out@);
                let ghost more = attrs_from(record@, pos + len, end as int, out@.len() + 1);
                out.push(a);
                assert(attr_views(out@) =~= before.push(a@));
                assert(more is Some ==> before + (seq![a@] + more->0) =~= attr_views(out@)
                    + more->0);
            },
        }
        pos = pos + len;
        if !(pos <= end && end - pos >= 8) {
            assert(attr_views(out@) + Seq::<AttrView>::empty() =~= attr_views(out@));
        }
    }
    Ok(out)
}

/// The value of a file name attribute, which is also the key of a directory.
pub struct FileName {
    pub parent_ref: u64,
    pub mtime: u64,
    pub size: u64,
    pub flags: u32,
    pub namespace: u8,
    pub name: String,
}

#[verifier::ext_equal]
pub struct FileNameView {
    pub parent_ref: u64,
    pub mtime: u64,
    pub size: u64,
    pub flags: u32,
    pub namespace: u8,
    pub name: Seq<char>,
}

impl View for FileName {
    type V = FileNameView;

    open spec fn view(&self) -> FileNameView {
        FileNameView {
            parent_ref: self.parent_ref,
            mtime: self.mtime,
            size: self.size,
            flags: self.flags,
            namespace: self.namespace,
            name: self.name@,
        }
    }
}

/// Seconds from the start of 1601 to the start of 1970.
pub const EPOCH_SHIFT: u64 = 11_644_473_600;

/// A time in steps of 100 ns from 1601 on, in seconds from 1970 on. An earlier time
/// becomes zero.
pub open spec fn epoch_of(ft: u64) -> u64 {
    let secs = ft / 10_000_000;
    if secs < EPOCH_SHIFT {
        0
    } else {
        (secs - EPOCH_SHIFT) as u64
    }
}

pub fn filetime_to_epoch(ft: u64) -> (r: u64)
    ensures
        r == epoch_of(ft),
{
    let secs: u64 = ft / 10_000_000;
    if secs < EPOCH_SHIFT {
        0
    } else {
        secs - EPOCH_SHIFT
    }
}

/// The file name in a value, if it is well formed.
pub open spec fn file_name_of(v: Seq<u8>) -> Option<FileNameView> {
    if v.len() < 0x42 || 0x42 + v[0x40] * 2 > v.len() {
        None
    } else {
        Some(
            FileNameView {
                parent_ref: crate::bytes::le64(v, 0) as u64,
                mtime: epoch_of(crate::bytes::le64(v, 0x10) as u64),
                size: crate::bytes::le64(v, 0x30) as u64,
                flags: crate::bytes::le32(v, 0x38) as u32,
                namespace: v[0x41],
                name: text_of(v.subrange(0x42, 0x42 + v[0x40] * 2)),
            },
        )
    }
}

pub fn parse_file_name(value: &[u8]) -> (r: Result<FileName, VfsError>)
    ensures
        match file_name_of(value@) {
            Some(v) => r is Ok && r->Ok_0@ == v,
            None => r == Err::<FileName, VfsError>(VfsError::IOError),
        },
{
    assert(value@.len() == value.len());
    if value.len() < 0x42 {
        return Err(VfsError::IOError);
    }
    let name_len: usize = value[0x40] as usize;
    if 0x42 + name_len * 2 > value.len() {
        return Err(VfsError::IOError);
    }
    let bytes: Vec<u8> = sub_vec(value, 0x42, 0x42 + name_len * 2);
    let f = FileName {
        parent_ref: read_le_u64(value, 0),
        mtime: filetime_to_epoch(read_le_u64(value, 0x10)),
        size: read_le_u64(value, 0x30),
        flags: read_le_u32(value, 0x38),
        namespace: value[0x41],
        name: decode_utf16le(&bytes),
    };
    assert(f@ =~= file_name_of(value@)->0);
    Ok(f)
}

/// An entry of an attribute list: an attribute, and the record that it stands in.
pub struct AttrListEntry {
    pub attr_type: u32,
    pub name: Option<String>,
    pub lowest_vcn: u64,
    pub mft_ref: u64,
}

#[verifier::ext_equal]
pub struct AttrListView {
    pub attr_type: u32,
    pub name: Option<Seq<char>>,
    pub lowest_vcn: u64,
    pub mft_ref: u64,
}

impl View for AttrListEntry {
    type V = AttrListView;

    open spec fn view(&self) -> AttrListView {
        AttrListView {
            attr_type: self.attr_type,
            name: name_view(self.name),
            lowest_vcn: self.lowest_vcn,
            mft_ref: self.mft_ref,
        }
    }
}

pub open spec fn list_views(v: Seq<AttrListEntry>) -> Seq<AttrListView> {
    Seq::new(v.len(), |i: int| v[i]@)
}

/// The list entry at `pos`.
pub open spec fn list_entry_at(v: Seq<u8>, pos: int) -> Option<AttrListView> {
    if v[pos + 6] != 0 && v[pos + 7] + v[pos + 6] * 2 > crate::bytes::le16(v, pos + 4) {
        None
    } else {
        Some(
            AttrListView {
                attr_type: crate::bytes::le32(v, pos) as u32,
                name: if v[pos + 6] == 0 {
                    None
                } else {
                    Some(
                        text_of(
                            v.subrange(pos + v[pos + 7], pos + v[pos + 7] + v[pos + 6] * 2),
                        ),
                    )
                },
                lowest_vcn: crate::bytes::le64(v, pos + 8) as u64,
                mft_ref: crate::bytes::le64(v, pos + 0x10) as u64,
            },
        )
    }
}

/// The entries of an attribute list from `pos` on, behind `n` others.
pub open spec fn list_from(v: Seq<u8>, pos: int, n: nat) -> Option<Seq<AttrListView>>
    decreases rest(v.len() as int, pos),
{
    if pos + 0x18 > v.len() {
        Some(Seq::empty())
    } else if n >= MAX_ATTRS {
        None
    } else if crate::bytes::le32(v, pos) == ATTR_END {
        Some(Seq::empty())
    } else {
        let len = crate::bytes::le16(v, pos + 4);
        if len < 0x1A || pos + len > v.len() {
            None
        } else {
            match (list_entry_at(v, pos), list_from(v, pos + len, n + 1)) {
                (Some(e), Some(more)) => Some(seq![e] + more),
                (_, _) => None,
            }
        }
    }
}

fn read_list_entry(value: &Vec<u8>, pos: usize, len: usize) -> (r: Option<AttrListEntry>)
    requires
        len == crate::bytes::le16(value@, pos as int + 4),
        len >= 0x1A,
        pos + len <= value@.len(),
    ensures
        match list_entry_at(value@, pos as int) {
            Some(v) => r is Some && r->0@ == v,
            None => r is None,
        },
{
    assert(value@.len() == value.len());
    let name_len: usize = value[pos + 6] as usize;
    let name_off: usize = value[pos + 7] as usize;
    let name: Option<String> = if name_len == 0 {
        None
    } else {
        if name_off + name_len * 2 > len {
            return None;
        }
        let bytes: Vec<u8> = sub_vec(value, pos + name_off, pos + name_off + name_len * 2);
        Some(decode_utf16le(&bytes))
    };
    let e = AttrListEntry {
        attr_type: read_le_u32(value, pos),
        name,
        lowest_vcn: read_le_u64(value, pos + 8),
        mft_ref: read_le_u64(value, pos + 0x10),
    };
    assert(e@ =~= list_entry_at(value@, pos as int)->0);
    Some(e)
}

pub fn parse_attr_list(value: &Vec<u8>) -> (r: Result<Vec<AttrListEntry>, VfsError>)
    ensures
        match list_from(value@, 0, 0) {
            Some(v) => r is Ok && list_views(r->Ok_0@) == v,
            None => r == Err::<Vec<AttrListEntry>, VfsError>(VfsError::IOError),
        },
{
    let mut out: Vec<AttrListEntry> = Vec::new();
    let mut pos: usize = 0;
    let ghost whole = list_from(value@, 0, 0);
    assert(list_views(out@) =~= Seq::<AttrListView>::empty());
    assert(whole is Some ==> list_views(out@) + whole->0 =~= whole->0);
    while pos <= value.len() && value.len() - pos >= 0x18
        invariant
            whole == list_from(value@, 0, 0),
            out@.len() <= MAX_ATTRS,
            whole is Some <==> list_from(value@, pos as int, out@.len()) is Some,
            whole is Some ==> whole->0 == list_views(out@) + list_from(
                value@,
                pos as int,
                out@.len(),
            )->0,
        ensures
            whole is Some,
            whole->0 == list_views(out@),
        decreases rest(value@.len() as int, pos as int),
    {
        if out.len() >= MAX_ATTRS {
            return Err(VfsError::IOError);
        }
        if read_le_u32(value, pos) == ATTR_END {
            assert(list_views(out@) + Seq::<AttrListView>::empty() =~= list_views(out@));
            break;
        }
        let len: usize = read_le_u16(value, pos + 4) as usize;
        if len < 0x1A || len > value.len() - pos {
            return Err(VfsError::IOError);
        }
        match read_list_entry(value, pos, len) {
            None => {
                return Err(VfsError::IOError);
            },
            Some(e) => {
                let ghost before = list_views(out@);
                let ghost more = list_from(value@, pos + len, out@.len() + 1);
                out.push(e);
                assert(list_views(out@) =~= before.push(e@));
                assert(more is Some ==> before + (seq![e@] + more->0) =~= list_views(out@)
                    + more->0);
            },
        }
        pos = pos + len;
        if !(pos <= value.len() && value.len() - pos >= 0x18) {
            assert(list_views(out@) + Seq::<AttrListView>::empty() =~= list_views(out@));
        }
    }
    Ok(out)
}

} // verus!
