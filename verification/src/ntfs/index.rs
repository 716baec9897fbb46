//! Directories: the index of a record.

use crate::blockdriver::traits::BlockDevice;
use crate::bytes::{read_le_u16, read_le_u32, read_le_u64, sub_vec};
use crate::collections::LbaSet;
use crate::ntfs::attr::{
    iter_attrs, parse_file_name, Attr, AttrView, ATTR_BITMAP, ATTR_INDEX_ALLOCATION,
    ATTR_INDEX_ROOT, FILE_NAME_INDEX_PRESENT, MFT_REF_LIMIT,
};
use crate::ntfs::boot::BootSector;
use crate::ntfs::detail;
use crate::ntfs::record::usa_fixup;
use crate::ntfs::runs::{read_file_at, Run, RunList};
use crate::ntfs::volume::{read_attr_value, read_runs, NtfsSuperBlock};
use crate::text::same_text;
use crate::vfs::VfsError;
use vstd::prelude::*;

verus! {

pub const MAX_INDEX_ENTRIES: usize = 1_000_000;

pub const MAX_INDEX_DEPTH: u32 = 16;

pub const MAX_INDEX_BLOCKS: u64 = 1_000_000;

pub const MAX_BITMAP_BYTES: u64 = 16_777_216;

/// The entry is the last one.
pub const INDEX_ENTRY_LAST: u16 = 0x02;

/// The entry has a block of entries below it.
pub const INDEX_ENTRY_SUBNODE: u16 = 0x01;

/// "INDX".
pub const INDEX_MAGIC: u32 = 0x5844_4E49;

/// The namespace of short names.
pub const NAMESPACE_DOS: u8 = 2;

/// One directory entry.
pub struct IndexEntry {
    pub mft_ref: u64,
    pub name: String,
    pub namespace: u8,
    pub mtime: u64,
    pub size: u64,
    pub is_dir: bool,
    pub parent_ref: u64,
}

#[verifier::ext_equal]
pub struct IndexEntryView {
    pub mft_ref: u64,
    pub name: Seq<char>,
    pub namespace: u8,
    pub mtime: u64,
    pub size: u64,
    pub is_dir: bool,
    pub parent_ref: u64,
}

impl View for IndexEntry {
    type V = IndexEntryView;

    open spec fn view(&self) -> IndexEntryView {
        IndexEntryView {
            mft_ref: self.mft_ref,
            name: self.name@,
            namespace: self.namespace,
            mtime: self.mtime,
            size: self.size,
            is_dir: self.is_dir,
            parent_ref: self.parent_ref,
        }
    }
}

pub open spec fn entry_views(v: Seq<IndexEntry>) -> Seq<IndexEntryView> {
    Seq::new(v.len(), |i: int| v[i]@)
}

/// How far a walk through an index has come: the blocks that it has been to, and
/// the entries that it has found.
#[verifier::ext_equal]
pub struct Walk {
    pub visited: Set<u64>,
    pub out: Seq<IndexEntryView>,
}

/// The part of `d` that the index header at `off` speaks of.
pub open spec fn region_of(d: Seq<u8>, off: int) -> Option<(int, int)> {
    let start = off + crate::bytes::le32(d, off);
    let end = off + crate::bytes::le32(d, off + 4);
    if off + 8 > d.len() || end > d.len() || start > end {
        None
    } else {
        Some((start, end))
    }
}

/// The block `vcn` of an index: nothing where it cannot be read, and no block where
/// the file ends before it or it is not in use.
pub open spec fn block_of(
    disk: spec_fn(int) -> u8,
    boot: BootSector,
    runs: Seq<Run>,
    vcn: int,
) -> Option<Option<Seq<u8>>> {
    if vcn * boot.index_size > u64::MAX {
        None
    } else {
        match crate::ntfs::runs::content(
            disk,
            boot,
            runs,
            vcn * boot.index_size,
            boot.index_size as int,
        ) {
            None => None,
            Some(c) => if c.len() < boot.index_size {
                Some(None)
            } else if !crate::ntfs::record::is_whole(c, 512) {
                None
            } else {
                let d = crate::ntfs::record::fixed(c, 512);
                if crate::bytes::le32(d, 0) != INDEX_MAGIC {
                    Some(None)
                } else if region_of(d, 0x18) is None {
                    None
                } else {
                    Some(Some(d))
                }
            },
        }
    }
}

pub open spec fn entry_len(d: Seq<u8>, pos: int) -> int {
    crate::bytes::le16(d, pos + 8)
}

pub open spec fn key_len(d: Seq<u8>, pos: int) -> int {
    crate::bytes::le16(d, pos + 10)
}

pub open spec fn entry_flags(d: Seq<u8>, pos: int) -> u16 {
    crate::bytes::le16(d, pos + 12) as u16
}

/// The directory entry at `pos`: nothing where the key is no file name, and for the
/// directory itself and its parent.
pub open spec fn entry_at(d: Seq<u8>, pos: int) -> Option<IndexEntryView> {
    if key_len(d, pos) > 0 && key_len(d, pos) <= entry_len(d, pos) - 0x10 {
        match crate::ntfs::attr::file_name_of(
            d.subrange(pos + 0x10, pos + 0x10 + key_len(d, pos)),
        ) {
            Some(f) => if f.name == "."@ || f.name == ".."@ {
                None
            } else {
                Some(
                    IndexEntryView {
                        mft_ref: crate::ntfs::attr::record_no(crate::bytes::le64(d, pos)) as u64,
                        name: f.name,
                        namespace: f.namespace,
                        mtime: f.mtime,
                        size: f.size,
                        is_dir: f.flags & FILE_NAME_INDEX_PRESENT != 0,
                        parent_ref: f.parent_ref,
                    },
                )
            },
            None => None,
        }
    } else {
        None
    }
}

/// The walk with the entry at `pos`, if there is one.
pub open spec fn with_entry(d: Seq<u8>, pos: int, w: Walk) -> Walk {
    match entry_at(d, pos) {
        Some(e) => Walk { out: w.out.push(e), ..w },
        None => w,
    }
}

/// The block below the entry at `pos`, where there is one and the walk goes there.
pub open spec fn subnode_at(d: Seq<u8>, pos: int, depth: int) -> Option<u64> {
    if entry_flags(d, pos) & INDEX_ENTRY_SUBNODE != 0 && depth < MAX_INDEX_DEPTH && entry_len(d, pos)
        >= 0x18 {
        Some(crate::bytes::le64(d, pos + entry_len(d, pos) - 8) as u64)
    } else {
        None
    }
}

/// How many levels are left below `depth`.
pub open spec fn levels(depth: int) -> nat {
    if depth < MAX_INDEX_DEPTH {
        (MAX_INDEX_DEPTH - depth) as nat
    } else {
        0
    }
}

/// The walk once it has been through the entries of `d` from `pos` to `end`, and
/// through the blocks below them. No block is walked twice.
pub open spec fn walked(
    disk: spec_fn(int) -> u8,
    boot: BootSector,
    alloc: Option<Seq<Run>>,
    d: Seq<u8>,
    pos: int,
    end: int,
    depth: int,
    w: Walk,
) -> Option<Walk>
    decreases levels(depth), crate::ntfs::attr::rest(end, pos),
{
    if pos + 0x10 > end {
        Some(w)
    } else if w.out.len() >= MAX_INDEX_ENTRIES || entry_len(d, pos) < 0x10 || pos + entry_len(d, pos)
        > end {
        None
    } else if entry_flags(d, pos) & INDEX_ENTRY_LAST != 0 {
        Some(w)
    } else {
        let w1 = with_entry(d, pos, w);
        let next = pos + entry_len(d, pos);
        match (subnode_at(d, pos, depth), alloc) {
            (Some(vcn), Some(runs)) => if w1.visited.contains(vcn) {
                walked(disk, boot, alloc, d, next, end, depth, w1)
            } else {
                let w2 = Walk { visited: w1.visited.insert(vcn), ..w1 };
                match block_of(disk, boot, runs, vcn as int) {
                    None => None,
                    Some(None) => walked(disk, boot, alloc, d, next, end, depth, w2),
                    Some(Some(b)) => match walked(
                        disk,
                        boot,
                        alloc,
                        b,
                        (region_of(b, 0x18)->0).0,
                        (region_of(b, 0x18)->0).1,
                        depth + 1,
                        w2,
                    ) {
                        None => None,
                        Some(w3) => walked(disk, boot, alloc, d, next, end, depth, w3),
                    },
                }
            },
            (_, _) => walked(disk, boot, alloc, d, next, end, depth, w1),
        }
    }
}

/// The runs of an index's blocks, where it has any.
pub open spec fn alloc_view(a: Option<&RunList>) -> Option<Seq<Run>> {
    match a {
        Some(l) => Some(l.runs@),
        None => None,
    }
}

/// Where the walk stands.
pub open spec fn walk_of(visited: LbaSet, out: Seq<IndexEntry>) -> Walk {
    Walk { visited: crate::collections::lba_set(visited), out: entry_views(out) }
}

/// What is noted of the block `vcn` of an index that cannot be read: something only where it
/// is torn.
pub open spec fn block_text(
    disk: spec_fn(int) -> u8,
    boot: BootSector,
    runs: Seq<Run>,
    vcn: int,
) -> Option<Seq<char>> {
    if vcn * boot.index_size > u64::MAX {
        None
    } else {
        match crate::ntfs::runs::content(
            disk,
            boot,
            runs,
            vcn * boot.index_size,
            boot.index_size as int,
        ) {
            Some(d) => if d.len() == boot.index_size {
                crate::ntfs::record::torn_text(d, 512)
            } else {
                None
            },
            None => None,
        }
    }
}

/// From `before`, what is wrong with the block `vcn` was noted, if it is torn.
pub open spec fn block_noted<D: BlockDevice>(
    after: NtfsSuperBlock<D>,
    before: NtfsSuperBlock<D>,
    runs: Seq<Run>,
    vcn: u64,
) -> bool {
    after.why.noted(
        before.why,
        block_text(before.device.disk(), before.boot, runs, vcn as int),
    )
}

/// From `before`, what is wrong with some block was noted, if it is torn.
pub open spec fn torn_noted<D: BlockDevice>(
    after: NtfsSuperBlock<D>,
    before: NtfsSuperBlock<D>,
    runs: Seq<Run>,
) -> bool {
    exists|vcn: u64| #[trigger] block_noted(after, before, runs, vcn)
}

/// From `before`, a walk through an index whose blocks stand in `runs` came to an end: how
/// the device failed was noted, where it did; else what is wrong with a torn block, or
/// nothing.
#[verifier::opaque]
pub open spec fn walk_noted<D: BlockDevice>(
    after: NtfsSuperBlock<D>,
    before: NtfsSuperBlock<D>,
    runs: Option<Seq<Run>>,
) -> bool {
    if after.faults() > before.faults() {
        after.why.noted(before.why, detail::fault_text(before.device, after.device))
    } else {
        after.why == before.why || match runs {
            Some(l) => torn_noted(after, before, l),
            None => false,
        }
    }
}

/// From `before`, a listing failed: the end of a walk was noted.
#[verifier::opaque]
pub open spec fn listing_noted<D: BlockDevice>(
    after: NtfsSuperBlock<D>,
    before: NtfsSuperBlock<D>,
) -> bool {
    exists|runs: Option<Seq<Run>>| #[trigger] walk_noted(after, before, runs)
}

/// A walk that notes nothing, while the device does not fail.
proof fn lemma_walk_quiet<D: BlockDevice>(
    after: NtfsSuperBlock<D>,
    before: NtfsSuperBlock<D>,
    runs: Option<Seq<Run>>,
)
    requires
        after.unfailing(before),
    ensures
        walk_noted(after, before, runs),
{
    reveal(walk_noted);
}

/// A read of the device that notes how it failed, if it did.
proof fn lemma_walk_cut<D: BlockDevice>(
    after: NtfsSuperBlock<D>,
    before: NtfsSuperBlock<D>,
    runs: Option<Seq<Run>>,
)
    requires
        after.why.noted(before.why, detail::fault_text(before.device, after.device)),
    ensures
        walk_noted(after, before, runs),
{
    reveal(walk_noted);
}

/// A walk that notes a torn block, while the device does not fail.
proof fn lemma_walk_torn<D: BlockDevice>(
    after: NtfsSuperBlock<D>,
    before: NtfsSuperBlock<D>,
    runs: Seq<Run>,
    vcn: u64,
)
    requires
        after.faults() == before.faults(),
        block_noted(after, before, runs, vcn),
    ensures
        walk_noted(after, before, Some(runs)),
{
    reveal(walk_noted);
    assert(torn_noted(after, before, runs));
}

/// What a walk notes is the same from a state before it, if nothing failed up to it.
proof fn lemma_walk_noted<D: BlockDevice>(
    after: NtfsSuperBlock<D>,
    mid: NtfsSuperBlock<D>,
    before: NtfsSuperBlock<D>,
    runs: Option<Seq<Run>>,
)
    requires
        walk_noted(after, mid, runs),
        mid.unfailing(before),
        mid.same(before),
    ensures
        walk_noted(after, before, runs),
{
    reveal(walk_noted);
    if after.faults() <= mid.faults() && after.why != mid.why {
        let vcn = choose|vcn: u64| #[trigger] block_noted(after, mid, runs->0, vcn);
        assert(block_noted(after, before, runs->0, vcn));
    }
}

/// The same of a listing.
pub proof fn lemma_listing_noted<D: BlockDevice>(
    after: NtfsSuperBlock<D>,
    mid: NtfsSuperBlock<D>,
    before: NtfsSuperBlock<D>,
)
    requires
        listing_noted(after, mid),
        mid.unfailing(before),
        mid.same(before),
    ensures
        listing_noted(after, before),
        after.faults() > before.faults() ==> after.why.noted(
            before.why,
            detail::fault_text(before.device, after.device),
        ),
{
    reveal(listing_noted);
    reveal(walk_noted);
    let runs = choose|runs: Option<Seq<Run>>| #[trigger] walk_noted(after, mid, runs);
    lemma_walk_noted(after, mid, before, runs);
}

fn index_header_region(data: &Vec<u8>, off: usize) -> (r: Option<(usize, usize)>)
    requires
        off <= 0x18,
    ensures
        match region_of(data@, off as int) {
            Some((s, e)) => r == Some((s as usize, e as usize)) && 0 <= s <= e <= data@.len(),
            None => r is None,
        },
{
    if data.len() < off + 8 {
        return None;
    }
    let start: u64 = off as u64 + read_le_u32(data, off) as u64;
    let end: u64 = off as u64 + read_le_u32(data, off + 4) as u64;
    if end > data.len() as u64 || start > end {
        return None;
    }
    Some((start as usize, end as usize))
}

/// Reads one block of an index.
fn read_index_block<D: BlockDevice>(sb: &mut NtfsSuperBlock<D>, runs: &RunList, vcn: u64) -> (r:
    Result<Option<Vec<u8>>, VfsError>)
    requires
        old(sb).inv(),
        runs.inv(),
    ensures
        final(sb).inv(),
        final(sb).same(*old(sb)),
        match r {
            Err(e) => e == VfsError::IOError && (block_of(
                old(sb).device.disk(),
                old(sb).boot,
                runs.runs@,
                vcn as int,
            ) is Some ==> final(sb).faults() > old(sb).faults()) && walk_noted(
                *final(sb),
                *old(sb),
                Some(runs.runs@),
            ),
            Ok(None) => block_of(old(sb).device.disk(), old(sb).boot, runs.runs@, vcn as int)
                == Some(None::<Seq<u8>>),
            Ok(Some(d)) => block_of(old(sb).device.disk(), old(sb).boot, runs.runs@, vcn as int)
                == Some(Some(d@)) && region_of(d@, 0x18) is Some,
        },
        r is Ok ==> final(sb).unfailing(*old(sb)),
{
    proof {
        lemma_walk_quiet(*sb, *sb, Some(runs.runs@));
    }
    let size: u64 = sb.boot.index_size;
    let offset: u64 = match vcn.checked_mul(size) {
        Some(o) => o,
        None => return Err(VfsError::IOError),
    };
    let mut buf: Vec<u8> = match read_file_at(
        &mut sb.device,
        &sb.boot,
        runs,
        offset,
        size as usize,
        &mut sb.why,
    ) {
        Ok(v) => v,
        Err(e) => {
            proof {
                lemma_walk_cut(*sb, *old(sb), Some(runs.runs@));
            }
            return Err(e);
        },
    };
    if buf.len() < size as usize {
        return Ok(None);
    }
    if let Err(e) = usa_fixup(&mut buf, 512, &mut sb.why) {
        proof {
            lemma_walk_torn(*sb, *old(sb), runs.runs@, vcn);
        }
        return Err(e);
    }
    if read_le_u32(&buf, 0) != INDEX_MAGIC {
        return Ok(None);
    }
    proof {
        lemma_walk_quiet(*sb, *old(sb), Some(runs.runs@));
    }
    match index_header_region(&buf, 0x18) {
        Some(_) => Ok(Some(buf)),
        None => Err(VfsError::IOError),
    }
}

/// Reads the directory entry at `pos`.
fn read_entry(data: &Vec<u8>, pos: usize, e_len: usize) -> (r: Option<IndexEntry>)
    requires
        e_len == entry_len(data@, pos as int),
        e_len >= 0x10,
        pos + e_len <= data@.len(),
    ensures
        match entry_at(data@, pos as int) {
            Some(e) => r is Some && r->0@ == e,
            None => r is None,
        },
{
    assert(data@.len() == data.len());
    let key_len: usize = read_le_u16(data, pos + 10) as usize;
    if key_len == 0 || key_len > e_len - 0x10 {
        return None;
    }
    let key: Vec<u8> = sub_vec(data, pos + 0x10, pos + 0x10 + key_len);
    match parse_file_name(&key) {
        Err(_) => None,
        Ok(f) => {
            if same_text(f.name.as_str(), ".") || same_text(f.name.as_str(), "..") {
                return None;
            }
            let e = IndexEntry {
                mft_ref: read_le_u64(data, pos) % MFT_REF_LIMIT,
                name: f.name,
                namespace: f.namespace,
                mtime: f.mtime,
                size: f.size,
                is_dir: f.flags & FILE_NAME_INDEX_PRESENT != 0,
                parent_ref: f.parent_ref,
            };
            assert(e@ =~= entry_at(data@, pos as int)->0);
            Some(e)
        },
    }
}

/// Walks the entries of `data` from `start` to `end`, and the blocks below them.
fn parse_entries<D: BlockDevice>(
    sb: &mut NtfsSuperBlock<D>,
    data: &Vec<u8>,
    start: usize,
    end: usize,
    alloc: Option<&RunList>,
    visited: &mut LbaSet,
    out: &mut Vec<IndexEntry>,
    depth: u32,
) -> (r: Result<(), VfsError>)
    requires
        old(sb).inv(),
        end <= data@.len(),
        alloc matches Some(l) ==> l.inv(),
        depth <= MAX_INDEX_DEPTH,
    ensures
        final(sb).inv(),
        final(sb).same(*old(sb)),
        ({
            let whole = walked(
                old(sb).device.disk(),
                old(sb).boot,
                alloc_view(alloc),
                data@,
                start as int,
                end as int,
                depth as int,
                walk_of(*old(visited), old(out)@),
            );
            match r {
                Ok(_) => whole == Some(walk_of(*final(visited), final(out)@)),
                Err(e) => e == VfsError::IOError && (whole is Some ==> alloc is Some
                    && final(sb).faults() > old(sb).faults()) && walk_noted(
                    *final(sb),
                    *old(sb),
                    alloc_view(alloc),
                ),
            }
        }),
        r is Ok ==> final(sb).unfailing(*old(sb)),
    decreases levels(depth as int),
{
    let mut pos: usize = start;
    let ghost disk = sb.device.disk();
    let ghost boot = sb.boot;
    let ghost whole = walked(
        disk,
        boot,
        alloc_view(alloc),
        data@,
        start as int,
        end as int,
        depth as int,
        walk_of(*visited, out@),
    );
    while pos <= end && end - pos >= 0x10
        invariant
            sb.inv(),
            sb.same(*old(sb)),
            sb.unfailing(*old(sb)),
            disk == old(sb).device.disk(),
            boot == old(sb).boot,
            end <= data@.len(),
            alloc matches Some(l) ==> l.inv(),
            depth <= MAX_INDEX_DEPTH,
            whole == walked(
                disk,
                boot,
                alloc_view(alloc),
                data@,
                start as int,
                end as int,
                depth as int,
                walk_of(*old(visited), old(out)@),
            ),
            whole == walked(
                disk,
                boot,
                alloc_view(alloc),
                data@,
                pos as int,
                end as int,
                depth as int,
                walk_of(*visited, out@),
            ),
        ensures
            sb.inv(),
            sb.same(*old(sb)),
            sb.unfailing(*old(sb)),
            whole == Some(walk_of(*visited, out@)),
        decreases crate::ntfs::attr::rest(end as int, pos as int),
    {
        proof {
            lemma_walk_quiet(*sb, *old(sb), alloc_view(alloc));
        }
        if out.len() >= MAX_INDEX_ENTRIES {
            return Err(VfsError::IOError);
        }
        assert(data@.len() == data.len());
        let e_len: usize = read_le_u16(data, pos + 8) as usize;
        let flags: u16 = read_le_u16(data, pos + 12);
        if e_len < 0x10 || e_len > end - pos {
            return Err(VfsError::IOError);
        }
        if flags & INDEX_ENTRY_LAST != 0 {
            break;
        }
        let ghost w0 = walk_of(*visited, out@);
        if let Some(e) = read_entry(data, pos, e_len) {
            let ghost before = entry_views(out@);
            out.push(e);
            assert(entry_views(out@) =~= before.push(e@));
        }
        assert(walk_of(*visited, out@) =~= with_entry(data@, pos as int, w0));
        if flags & INDEX_ENTRY_SUBNODE != 0 && depth < MAX_INDEX_DEPTH && e_len >= 0x18 {
            let sub_vcn: u64 = read_le_u64(data, pos + e_len - 8);
            if let Some(runs) = alloc {
                let ghost w1 = walk_of(*visited, out@);
                if visited.insert(sub_vcn) {
                    assert(walk_of(*visited, out@) =~= (Walk {
                        visited: w1.visited.insert(sub_vcn),
                        ..w1
                    }));
                    let ghost mid = *sb;
                    match read_index_block(sb, runs, sub_vcn) {
                        Err(e) => {
                            proof {
                                lemma_walk_noted(*sb, mid, *old(sb), alloc_view(alloc));
                            }
                            return Err(e);
                        },
                        Ok(None) => {},
                        Ok(Some(block)) => {
                            let ghost mid = *sb;
                            if let Some((s, e)) = index_header_region(&block, 0x18) {
                                if let Err(x) = parse_entries(
                                    sb,
                                    &block,
                                    s,
                                    e,
                                    alloc,
                                    visited,
                                    out,
                                    depth + 1,
                                ) {
                                    proof {
                                        lemma_walk_noted(*sb, mid, *old(sb), alloc_view(alloc));
                                    }
                                    return Err(x);
                                }
                            }
                        },
                    }
                } else {
                    assert(walk_of(*visited, out@) =~= w1);
                }
            }
        }
        pos = pos + e_len;
    }
    Ok(())
}

/// The attribute is of type `t` and belongs to the index of file names.
pub open spec fn is_i30(a: AttrView, t: u32) -> bool {
    a.attr_type == t && a.name == Some("$I30"@)
}

/// The first attribute of type `t` that belongs to the index of file names.
pub open spec fn first_i30(attrs: Seq<AttrView>, t: u32) -> Option<AttrView>
    decreases attrs.len(),
{
    if attrs.len() == 0 {
        None
    } else if is_i30(attrs[0], t) {
        Some(attrs[0])
    } else {
        first_i30(attrs.skip(1), t)
    }
}

/// The bitmap says that block `vcn` is in use. Without a bitmap every block is.
pub open spec fn is_used(bits: Seq<u8>, vcn: int) -> bool {
    bits.len() == 0 || (vcn / 8 < bits.len() && bits[vcn / 8] & (1u8 << ((vcn % 8) as u8)) != 0)
}

/// The last block that is looked at: the last one of the index, or the limit.
pub open spec fn last_block(real_size: u64, index_size: u64) -> int {
    let n = real_size as int / index_size as int;
    if n == 0 {
        0
    } else if n - 1 < MAX_INDEX_BLOCKS {
        n - 1
    } else {
        MAX_INDEX_BLOCKS as int
    }
}

/// The walk once it has been through the blocks from `vcn` to `last` that are in
/// use and have not been walked yet.
pub open spec fn blocks_walked(
    disk: spec_fn(int) -> u8,
    boot: BootSector,
    runs: Seq<Run>,
    bits: Seq<u8>,
    vcn: int,
    last: int,
    w: Walk,
) -> Option<Walk>
    decreases last + 1 - vcn,
{
    if vcn > last {
        Some(w)
    } else if !is_used(bits, vcn) || w.visited.contains(vcn as u64) {
        blocks_walked(disk, boot, runs, bits, vcn + 1, last, w)
    } else {
        let w2 = Walk { visited: w.visited.insert(vcn as u64), ..w };
        match block_of(disk, boot, runs, vcn) {
            None => None,
            Some(None) => blocks_walked(disk, boot, runs, bits, vcn + 1, last, w2),
            Some(Some(b)) => match walked(
                disk,
                boot,
                Some(runs),
                b,
                (region_of(b, 0x18)->0).0,
                (region_of(b, 0x18)->0).1,
                0,
                w2,
            ) {
                None => None,
                Some(w3) => blocks_walked(disk, boot, runs, bits, vcn + 1, last, w3),
            },
        }
    }
}

/// The entry is a short name, and `kept` has a long name that reads the same.
pub open spec fn is_alias(kept: Seq<IndexEntryView>, e: IndexEntryView) -> bool {
    e.namespace == NAMESPACE_DOS && exists|i: int|
        0 <= i < kept.len() && (#[trigger] kept[i]).name == e.name && kept[i].namespace
            != NAMESPACE_DOS
}

/// The entries, but for short names that repeat a long name before them.
pub open spec fn without_aliases(out: Seq<IndexEntryView>) -> Seq<IndexEntryView>
    decreases out.len(),
{
    if out.len() == 0 {
        Seq::empty()
    } else {
        let kept = without_aliases(out.drop_last());
        if is_alias(kept, out.last()) {
            kept
        } else {
            kept.push(out.last())
        }
    }
}

/// The walk before it starts.
pub open spec fn fresh_walk() -> Walk {
    Walk { visited: Set::empty(), out: Seq::empty() }
}

/// The walk through the entries that stand in the record itself.
pub open spec fn root_walked(
    disk: spec_fn(int) -> u8,
    boot: BootSector,
    alloc: Option<Seq<Run>>,
    root: AttrView,
) -> Option<Walk> {
    match region_of(root.value, 0x10) {
        None => None,
        Some((s, e)) => walked(disk, boot, alloc, root.value, s, e, 0, fresh_walk()),
    }
}

/// The bitmap of the index, or none.
pub open spec fn bitmap_of(
    disk: spec_fn(int) -> u8,
    boot: BootSector,
    rec: Seq<u8>,
    attrs: Seq<AttrView>,
) -> Option<Seq<u8>> {
    match first_i30(attrs, ATTR_BITMAP) {
        None => Some(Seq::empty()),
        Some(b) => crate::ntfs::volume::attr_value(disk, boot, rec, b, MAX_BITMAP_BYTES),
    }
}

/// The walk through an index whose blocks have the runs of `a`.
pub open spec fn large_index_walked(
    disk: spec_fn(int) -> u8,
    boot: BootSector,
    rec: Seq<u8>,
    attrs: Seq<AttrView>,
    root: AttrView,
    a: AttrView,
) -> Option<Walk> {
    if a.resident {
        None
    } else {
        match (crate::ntfs::volume::attr_runs(rec, a), bitmap_of(disk, boot, rec, attrs)) {
            (Some(runs), Some(bits)) => match root_walked(disk, boot, Some(runs), root) {
                None => None,
                Some(w) => blocks_walked(
                    disk,
                    boot,
                    runs,
                    bits,
                    0,
                    last_block(a.real_size, boot.index_size),
                    w,
                ),
            },
            (_, _) => None,
        }
    }
}

/// The entries of the directory with the record `rec`: those in the record first,
/// then those in blocks, and below each entry its block.
pub open spec fn listing(disk: spec_fn(int) -> u8, boot: BootSector, rec: Seq<u8>) -> Option<
    Seq<IndexEntryView>,
> {
    match crate::ntfs::attr::attrs_of(rec) {
        None => None,
        Some(attrs) => match first_i30(attrs, ATTR_INDEX_ROOT) {
            None => None,
            Some(root) => {
                let w = match first_i30(attrs, ATTR_INDEX_ALLOCATION) {
                    None => root_walked(disk, boot, None, root),
                    Some(a) => large_index_walked(disk, boot, rec, attrs, root, a),
                };
                match w {
                    None => None,
                    Some(done) => Some(without_aliases(done.out)),
                }
            },
        },
    }
}

fn find_i30(attrs: &Vec<Attr>, t: u32) -> (r: Option<usize>)
    ensures
        match first_i30(crate::ntfs::attr::attr_views(attrs@), t) {
            Some(a) => r is Some && r->0 < attrs@.len() && attrs@[r->0 as int]@ == a,
            None => r is None,
        },
{
    let ghost views = crate::ntfs::attr::attr_views(attrs@);
    let mut i: usize = 0;
    assert(views.skip(0) =~= views);
    while i < attrs.len()
        invariant
            i <= attrs@.len(),
            views == crate::ntfs::attr::attr_views(attrs@),
            first_i30(views.skip(i as int), t) == first_i30(views, t),
        decreases attrs@.len() - i,
    {
        assert(views.skip(i as int)[0] == attrs@[i as int]@);
        assert(views.skip(i as int).skip(1) =~= views.skip(i + 1));
        if attrs[i].attr_type == t {
            if let Some(n) = &attrs[i].name {
                if same_text(n.as_str(), "$I30") {
                    return Some(i);
                }
            }
        }
        i = i + 1;
    }
    None
}

fn block_in_use(bits: &Vec<u8>, vcn: u64) -> (r: bool)
    requires
        vcn <= MAX_INDEX_BLOCKS,
    ensures
        r == is_used(bits@, vcn as int),
{
    if bits.len() == 0 {
        return true;
    }
    let byte: usize = (vcn / 8) as usize;
    let bit: u8 = (vcn % 8) as u8;
    byte < bits.len() && bits[byte] & (1u8 << bit) != 0
}

/// Walks the blocks up to `last` that are in use.
fn walk_blocks<D: BlockDevice>(
    sb: &mut NtfsSuperBlock<D>,
    runs: &RunList,
    bits: &Vec<u8>,
    last: u64,
    visited: &mut LbaSet,
    out: &mut Vec<IndexEntry>,
) -> (r: Result<(), VfsError>)
    requires
        old(sb).inv(),
        runs.inv(),
        last <= MAX_INDEX_BLOCKS,
    ensures
        final(sb).inv(),
        final(sb).same(*old(sb)),
        match r {
            Ok(_) => blocks_walked(
                old(sb).device.disk(),
                old(sb).boot,
                runs.runs@,
                bits@,
                0,
                last as int,
                walk_of(*old(visited), old(out)@),
            ) == Some(walk_of(*final(visited), final(out)@)),
            Err(e) => e == VfsError::IOError && (blocks_walked(
                old(sb).device.disk(),
                old(sb).boot,
                runs.runs@,
                bits@,
                0,
                last as int,
                walk_of(*old(visited), old(out)@),
            ) is Some ==> final(sb).faults() > old(sb).faults()) && walk_noted(
                *final(sb),
                *old(sb),
                Some(runs.runs@),
            ),
        },
        r is Ok ==> final(sb).unfailing(*old(sb)),
{
    let mut vcn: u64 = 0;
    let ghost disk = sb.device.disk();
    let ghost boot = sb.boot;
    let ghost whole = blocks_walked(
        disk,
        boot,
        runs.runs@,
        bits@,
        0,
        last as int,
        walk_of(*visited, out@),
    );
    while vcn <= last
        invariant
            sb.inv(),
            sb.same(*old(sb)),
            sb.unfailing(*old(sb)),
            runs.inv(),
            disk == old(sb).device.disk(),
            boot == old(sb).boot,
            vcn <= last + 1,
            last <= MAX_INDEX_BLOCKS,
            whole == blocks_walked(
                disk,
                boot,
                runs.runs@,
                bits@,
                vcn as int,
                last as int,
                walk_of(*visited, out@),
            ),
            whole == blocks_walked(
                disk,
                boot,
                runs.runs@,
                bits@,
                0,
                last as int,
                walk_of(*old(visited), old(out)@),
            ),
        decreases last + 1 - vcn,
    {
        let ghost w = walk_of(*visited, out@);
        if block_in_use(bits, vcn) {
            if visited.insert(vcn) {
                assert(walk_of(*visited, out@) =~= (Walk { visited: w.visited.insert(vcn), ..w }));
                let ghost mid = *sb;
                match read_index_block(sb, runs, vcn) {
                    Err(e) => {
                        proof {
                            lemma_walk_noted(*sb, mid, *old(sb), Some(runs.runs@));
                        }
                        return Err(e);
                    },
                    Ok(None) => {},
                    Ok(Some(block)) => {
                        let ghost mid = *sb;
                        if let Some((s, e)) = index_header_region(&block, 0x18) {
                            if let Err(x) = parse_entries(
                                sb,
                                &block,
                                s,
                                e,
                                Some(runs),
                                visited,
                                out,
                                0,
                            ) {
                                proof {
                                    lemma_walk_noted(*sb, mid, *old(sb), Some(runs.runs@));
                                }
                                return Err(x);
                            }
                        }
                    },
                }
            } else {
                assert(walk_of(*visited, out@) =~= w);
            }
        }
        vcn = vcn + 1;
    }
    Ok(())
}

fn has_long_name(kept: &Vec<IndexEntry>, e: &IndexEntry) -> (r: bool)
    ensures
        r == (e.namespace == NAMESPACE_DOS && is_alias(entry_views(kept@), e@)),
{
    if e.namespace != NAMESPACE_DOS {
        return false;
    }
    let mut i: usize = 0;
    while i < kept.len()
        invariant
            i <= kept@.len(),
            e.namespace == NAMESPACE_DOS,
            forall|k: int|
                0 <= k < i ==> !((#[trigger] entry_views(kept@)[k]).name == e@.name && entry_views(
                    kept@,
                )[k].namespace != NAMESPACE_DOS),
        decreases kept@.len() - i,
    {
        if kept[i].namespace != NAMESPACE_DOS && same_text(kept[i].name.as_str(), e.name.as_str()) {
            assert(entry_views(kept@)[i as int] == kept@[i as int]@);
            return true;
        }
        i = i + 1;
    }
    false
}

fn drop_aliases(out: Vec<IndexEntry>) -> (r: Vec<IndexEntry>)
    ensures
        entry_views(r@) == without_aliases(entry_views(out@)),
{
    let ghost all = entry_views(out@);
    let mut rest: Vec<IndexEntry> = out;
    let mut kept: Vec<IndexEntry> = Vec::new();
    let ghost mut n: int = 0;
    assert(entry_views(kept@) =~= Seq::<IndexEntryView>::empty());
    assert(all.take(0) =~= Seq::<IndexEntryView>::empty());
    assert(all.skip(0) =~= all);
    while rest.len() > 0
        invariant
            0 <= n <= all.len(),
            entry_views(rest@) == all.skip(n),
            entry_views(kept@) == without_aliases(all.take(n)),
        decreases rest@.len(),
    {
        let ghost before = rest@;
        assert(entry_views(before).len() == before.len());
        assert(all.skip(n)[0] == all[n]);
        let e: IndexEntry = rest.remove(0);
        proof {
            assert(entry_views(rest@) =~= entry_views(before).skip(1));
            assert(all.skip(n).skip(1) =~= all.skip(n + 1));
            assert(all.take(n + 1).drop_last() =~= all.take(n));
            assert(all.take(n + 1).last() == e@);
        }
        if !has_long_name(&kept, &e) {
            let ghost k0 = entry_views(kept@);
            kept.push(e);
            assert(entry_views(kept@) =~= k0.push(e@));
        }
        proof {
            n = n + 1;
        }
    }
    assert(all.skip(n).len() == 0);
    assert(all.take(n) =~= all);
    kept
}

/// The entries of the directory with the record `record`.
pub fn read_dir_entries<D: BlockDevice>(sb: &mut NtfsSuperBlock<D>, record: &Vec<u8>) -> (r: Result<
    Vec<IndexEntry>,
    VfsError,
>)
    requires
        old(sb).inv(),
    ensures
        final(sb).inv(),
        final(sb).same(*old(sb)),
        match r {
            Ok(v) => listing(old(sb).device.disk(), old(sb).boot, record@) == Some(
                entry_views(v@),
            ),
            Err(e) => e == VfsError::IOError && (listing(
                old(sb).device.disk(),
                old(sb).boot,
                record@,
            ) is Some ==> final(sb).faults() > old(sb).faults()) && listing_noted(
                *final(sb),
                *old(sb),
            ),
        },
        r is Ok ==> final(sb).unfailing(*old(sb)),
{
    proof {
        reveal(listing_noted);
        lemma_walk_quiet(*sb, *sb, None);
    }
    let attrs: Vec<Attr> = match iter_attrs(record) {
        Ok(a) => a,
        Err(e) => return Err(e),
    };
    let root: usize = match find_i30(&attrs, ATTR_INDEX_ROOT) {
        Some(i) => i,
        None => return Err(VfsError::IOError),
    };
    let mut out: Vec<IndexEntry> = Vec::new();
    let mut visited: LbaSet = LbaSet::new();
    assert(walk_of(visited, out@) =~= fresh_walk());
    let (start, end) = match index_header_region(&attrs[root].value, 0x10) {
        Some(p) => p,
        None => return Err(VfsError::IOError),
    };
    match find_i30(&attrs, ATTR_INDEX_ALLOCATION) {
        None => {
            if let Err(e) = parse_entries(
                sb,
                &attrs[root].value,
                start,
                end,
                None,
                &mut visited,
                &mut out,
                0,
            ) {
                return Err(e);
            }
        },
        Some(a) => {
            if attrs[a].resident {
                return Err(VfsError::IOError);
            }
            let runs: RunList = match read_runs(record, &attrs[a]) {
                Ok(l) => l,
                Err(e) => return Err(e),
            };
            let bits: Vec<u8> = match find_i30(&attrs, ATTR_BITMAP) {
                None => Vec::new(),
                Some(b) => match read_attr_value(
                    &mut sb.device,
                    &sb.boot,
                    record,
                    &attrs[b],
                    MAX_BITMAP_BYTES,
                    &mut sb.why,
                ) {
                    Ok(v) => v,
                    Err(e) => {
                        proof {
                            lemma_walk_cut(*sb, *old(sb), None);
                        }
                        return Err(e);
                    },
                },
            };
            let ghost mid = *sb;
            assert(mid.unfailing(*old(sb)) && mid.same(*old(sb)));
            if let Err(e) = parse_entries(
                sb,
                &attrs[root].value,
                start,
                end,
                Some(&runs),
                &mut visited,
                &mut out,
                0,
            ) {
                proof {
                    lemma_walk_noted(*sb, mid, *old(sb), Some(runs.runs@));
                }
                return Err(e);
            }
            let ghost mid = *sb;
            let blocks: u64 = attrs[a].real_size / sb.boot.index_size;
            let last: u64 = if blocks == 0 {
                0
            } else if blocks - 1 < MAX_INDEX_BLOCKS {
                blocks - 1
            } else {
                MAX_INDEX_BLOCKS
            };
            if let Err(e) = walk_blocks(sb, &runs, &bits, last, &mut visited, &mut out) {
                proof {
                    lemma_walk_noted(*sb, mid, *old(sb), Some(runs.runs@));
                }
                return Err(e);
            }
        },
    }
    Ok(drop_aliases(out))
}

/// None of the entries is the directory itself or its parent.
pub open spec fn no_dots(out: Seq<IndexEntryView>) -> bool {
    forall|i: int| 0 <= i < out.len() ==> (#[trigger] out[i]).name != "."@ && out[i].name != ".."@
}

proof fn lemma_walk_no_dots(
    disk: spec_fn(int) -> u8,
    boot: BootSector,
    alloc: Option<Seq<Run>>,
    d: Seq<u8>,
    pos: int,
    end: int,
    depth: int,
    w: Walk,
)
    requires
        no_dots(w.out),
        walked(disk, boot, alloc, d, pos, end, depth, w) is Some,
    ensures
        no_dots(walked(disk, boot, alloc, d, pos, end, depth, w)->0.out),
    decreases levels(depth), crate::ntfs::attr::rest(end, pos),
{
    if pos + 0x10 <= end && entry_flags(d, pos) & INDEX_ENTRY_LAST == 0 {
        let w1 = with_entry(d, pos, w);
        let next = pos + entry_len(d, pos);
        assert(no_dots(w1.out));
        match (subnode_at(d, pos, depth), alloc) {
            (Some(vcn), Some(runs)) => {
                if w1.visited.contains(vcn) {
                    lemma_walk_no_dots(disk, boot, alloc, d, next, end, depth, w1);
                } else {
                    let w2 = Walk { visited: w1.visited.insert(vcn), ..w1 };
                    match block_of(disk, boot, runs, vcn as int) {
                        Some(Some(b)) => {
                            let (s, e) = region_of(b, 0x18)->0;
                            lemma_walk_no_dots(disk, boot, alloc, b, s, e, depth + 1, w2);
                            let w3 = walked(disk, boot, alloc, b, s, e, depth + 1, w2)->0;
                            lemma_walk_no_dots(disk, boot, alloc, d, next, end, depth, w3);
                        },
                        _ => {
                            lemma_walk_no_dots(disk, boot, alloc, d, next, end, depth, w2);
                        },
                    }
                }
            },
            (_, _) => {
                lemma_walk_no_dots(disk, boot, alloc, d, next, end, depth, w1);
            },
        }
    }
}

proof fn lemma_blocks_no_dots(
    disk: spec_fn(int) -> u8,
    boot: BootSector,
    runs: Seq<Run>,
    bits: Seq<u8>,
    vcn: int,
    last: int,
    w: Walk,
)
    requires
        no_dots(w.out),
        blocks_walked(disk, boot, runs, bits, vcn, last, w) is Some,
    ensures
        no_dots(blocks_walked(disk, boot, runs, bits, vcn, last, w)->0.out),
    decreases last + 1 - vcn,
{
    if vcn <= last {
        if !is_used(bits, vcn) || w.visited.contains(vcn as u64) {
            lemma_blocks_no_dots(disk, boot, runs, bits, vcn + 1, last, w);
        } else {
            let w2 = Walk { visited: w.visited.insert(vcn as u64), ..w };
            match block_of(disk, boot, runs, vcn) {
                Some(Some(b)) => {
                    let (s, e) = region_of(b, 0x18)->0;
                    lemma_walk_no_dots(disk, boot, Some(runs), b, s, e, 0, w2);
                    let w3 = walked(disk, boot, Some(runs), b, s, e, 0, w2)->0;
                    lemma_blocks_no_dots(disk, boot, runs, bits, vcn + 1, last, w3);
                },
                _ => {
                    lemma_blocks_no_dots(disk, boot, runs, bits, vcn + 1, last, w2);
                },
            }
        }
    }
}

/// What is left once aliases are dropped came from the entries.
proof fn lemma_aliases_no_dots(out: Seq<IndexEntryView>)
    requires
        no_dots(out),
    ensures
        no_dots(without_aliases(out)),
    decreases out.len(),
{
    if out.len() > 0 {
        assert(out.last() == out[out.len() - 1]);
        lemma_aliases_no_dots(out.drop_last());
    }
}

/// A listing never holds the directory itself or its parent, whatever the volume
/// says.
pub proof fn law_listing_has_no_dots(disk: spec_fn(int) -> u8, boot: BootSector, rec: Seq<u8>)
    requires
        listing(disk, boot, rec) is Some,
    ensures
        no_dots(listing(disk, boot, rec)->0),
{
    let attrs = crate::ntfs::attr::attrs_of(rec)->0;
    let root = first_i30(attrs, ATTR_INDEX_ROOT)->0;
    let (s, e) = region_of(root.value, 0x10)->0;
    match first_i30(attrs, ATTR_INDEX_ALLOCATION) {
        None => {
            lemma_walk_no_dots(disk, boot, None, root.value, s, e, 0, fresh_walk());
            lemma_aliases_no_dots(root_walked(disk, boot, None, root)->0.out);
        },
        Some(a) => {
            let runs = crate::ntfs::volume::attr_runs(rec, a)->0;
            let bits = bitmap_of(disk, boot, rec, attrs)->0;
            lemma_walk_no_dots(disk, boot, Some(runs), root.value, s, e, 0, fresh_walk());
            let w = root_walked(disk, boot, Some(runs), root)->0;
            let last = last_block(a.real_size, boot.index_size);
            lemma_blocks_no_dots(disk, boot, runs, bits, 0, last, w);
            lemma_aliases_no_dots(blocks_walked(disk, boot, runs, bits, 0, last, w)->0.out);
        },
    }
}

} // verus!
