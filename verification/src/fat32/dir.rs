//! Directories: what their clusters hold, and changing it.

use vstd::prelude::*;

use crate::blockdriver::traits::BlockDevice;
use crate::bytes::copy_at;
use crate::bytes;
use crate::fat32::dirent;
use crate::fat32::dirent::{
    decode_sfn, decode_vfat_name, decode_volume_label, set_file_size_in_entry,
    set_first_clus_in_entry, set_timestamps, DirEntrySlot, ATTR_LONG_NAME, DIR_DELETED, DIR_END,
};
use crate::fat32::superblock::{Fat32SuperBlock, EOC_MARKER};
use crate::text;
use crate::text::same_ignoring_case;
use crate::vfs::VfsError;

verus! {

/// A file as its directory holds it, by the bytes of its entries.
#[verifier::ext_equal]
pub struct SlotView {
    pub vfat: Seq<Seq<u8>>,
    pub sfn: Seq<u8>,
}

impl View for DirEntrySlot {
    type V = SlotView;

    open spec fn view(&self) -> SlotView {
        SlotView { vfat: dirent::entry_views(self.vfat_entries@), sfn: self.sfn_entry@ }
    }
}

/// The views of slots.
pub open spec fn slot_views(v: Seq<DirEntrySlot>) -> Seq<SlotView> {
    v.map_values(|s: DirEntrySlot| s@)
}

/// Entry `i` of a directory.
pub open spec fn entry_at(b: Seq<u8>, i: int) -> Seq<u8> {
    b.subrange(32 * i, 32 * i + 32)
}

/// The attributes mark a volume label.
pub open spec fn is_label(attr: u8) -> bool {
    attr as int / 8 % 2 == 1
}

/// The attributes mark a directory.
pub open spec fn is_directory(attr: u8) -> bool {
    attr as int / 16 % 2 == 1
}

/// The files in the directory `b` from entry `i` on, behind those in `slots`, where
/// `pending` are entries of a long name whose short name is still to come. An entry
/// that begins with zero ends the directory.
pub open spec fn parse_from(
    b: Seq<u8>,
    i: int,
    pending: Seq<Seq<u8>>,
    slots: Seq<SlotView>,
) -> Seq<SlotView>
    decreases b.len() - 32 * i,
{
    if i < 0 || 32 * i + 32 > b.len() {
        slots
    } else {
        let e = entry_at(b, i);
        let none: Seq<Seq<u8>> = Seq::empty();
        if e[0] == DIR_END {
            slots
        } else if e[0] == DIR_DELETED {
            parse_from(b, i + 1, none, slots)
        } else if e[11] == ATTR_LONG_NAME {
            parse_from(b, i + 1, pending.push(e), slots)
        } else if is_label(e[11]) {
            parse_from(b, i + 1, none, slots.push(SlotView { vfat: none, sfn: e }))
        } else {
            parse_from(b, i + 1, none, slots.push(SlotView { vfat: pending, sfn: e }))
        }
    }
}

/// The files in the directory `b`.
pub open spec fn dir_files(b: Seq<u8>) -> Seq<SlotView> {
    parse_from(b, 0, Seq::empty(), Seq::empty())
}

/// The name of a file as its directory holds it.
pub open spec fn slot_name(s: SlotView) -> Seq<char> {
    if is_label(s.sfn[11]) {
        dirent::label_text(s.sfn.take(11))
    } else if s.vfat.len() > 0 {
        text::utf16_lossy(dirent::name_units(s.vfat))
    } else {
        dirent::sfn_text(s.sfn.take(11))
    }
}

/// The bytes `32 * i ..` of a buffer as an entry.
pub fn entry_of(buf: &Vec<u8>, i: usize) -> (r: [u8; 32])
    requires
        32 * i + 32 <= buf@.len(),
    ensures
        r@ == entry_at(buf@, i as int),
{
    let mut e: [u8; 32] = [0u8; 32];
    let mut k: usize = 0;
    assert(buf@.len() == buf.len());
    while k < 32
        invariant
            k <= 32,
            32 * i + 32 <= buf.len(),
            forall|j: int| 0 <= j < k ==> e@[j] == buf@[32 * i + j],
        decreases 32 - k,
    {
        e[k] = buf[32 * i + k];
        k = k + 1;
    }
    assert(e@ =~= entry_at(buf@, i as int));
    e
}

/// The short name in an entry.
pub fn sfn_in(entry: &[u8; 32]) -> (r: [u8; 11])
    ensures
        r@ == entry@.take(11),
{
    let mut s: [u8; 11] = [32u8; 11];
    let mut k: usize = 0;
    while k < 11
        invariant
            k <= 11,
            forall|j: int| 0 <= j < k ==> s@[j] == entry@[j],
        decreases 11 - k,
    {
        s[k] = entry[k];
        k = k + 1;
    }
    assert(s@ =~= entry@.take(11));
    s
}

/// The name of a file.
pub fn decode_entry_name(slot: &DirEntrySlot) -> (r: String)
    ensures
        r@ == slot_name(slot@),
{
    let attr: u8 = slot.sfn_entry[11];
    if attr / 8 % 2 == 1 {
        decode_volume_label(&sfn_in(&slot.sfn_entry))
    } else if slot.vfat_entries.len() > 0 {
        decode_vfat_name(&slot.vfat_entries)
    } else {
        decode_sfn(&sfn_in(&slot.sfn_entry))
    }
}

impl<D: BlockDevice> Fat32SuperBlock<D> {
    /// What the clusters of `s` hold one after the other.
    pub open spec fn chain_bytes(self, s: Seq<u32>) -> Seq<u8> {
        self.chain_range(s, 0, s.len() * self.bpb.byts_per_clus)
    }

    /// Entry `j` of cluster `k` is entry `k * n + j` of the directory.
    pub(crate) proof fn lemma_dir_entry(self, s: Seq<u32>, k: int, j: int)
        requires
            self.bpb.wf(),
            0 <= k < s.len(),
            0 <= j < self.bpb.byts_per_clus / 32,
        ensures
            ({
                let n = self.bpb.byts_per_clus as int / 32;
                &&& 32 * (k * n + j) + 32 <= self.chain_bytes(s).len()
                &&& entry_at(self.chain_bytes(s), k * n + j) == entry_at(
                    self.data(s[k] as int),
                    j,
                )
            }),
    {
        let cs = self.bpb.byts_per_clus as int;
        let n = cs / 32;
        let len = s.len() as int;
        let all = self.chain_bytes(s);
        assert(cs == 32 * n);
        assert(k * cs == 32 * (k * n)) by (nonlinear_arith)
            requires
                cs == 32 * n,
        ;
        assert(k * cs + cs <= len * cs) by (nonlinear_arith)
            requires
                k + 1 <= len,
                cs >= 0,
        ;
        assert forall|i: int| 0 <= i < 32 implies entry_at(all, k * n + j)[i] == entry_at(
            self.data(s[k] as int),
            j,
        )[i] by {
            let p = k * cs + 32 * j + i;
            vstd::arithmetic::div_mod::lemma_fundamental_div_mod_converse(p, cs, k, 32 * j + i);
            assert(all[p] == self.chain_byte(s, p));
        }
        assert(entry_at(all, k * n + j) =~= entry_at(self.data(s[k] as int), j));
    }

    /// The files in the directory whose first cluster is `dir_clus`.
    pub fn read_dir_slots(&mut self, dir_clus: u32) -> (r: Result<Vec<DirEntrySlot>, VfsError>)
        requires
            old(self).inv(),
        ensures
            final(self).quiet(*old(self)),
            match r {
                Ok(v) => forall|s: Seq<u32>| #[trigger]
                    old(self).is_file_chain(dir_clus as int, s) && old(self).sound() ==> slot_views(
                        v@,
                    ) == dir_files(old(self).chain_bytes(s)),
                Err(e) => e == VfsError::IOError && (old(self).has_chain(dir_clus as int)
                    ==> final(self).faults() > old(self).faults()),
            },
    {
        let ghost o = *self;
        let ghost first = dir_clus as int;
        let ghost known = o.sound() && exists|s: Seq<u32>| #[trigger] o.is_file_chain(first, s);
        let ghost s = choose|s: Seq<u32>| #[trigger] o.is_file_chain(first, s);
        let ghost all = o.chain_bytes(s);
        proof {
            assert forall|t: Seq<u32>| #[trigger] o.is_file_chain(first, t) implies t == s by {
                o.lemma_chain_unique(first, s, t);
            }
        }
        let mut slots: Vec<DirEntrySlot> = Vec::new();
        let mut pending: Vec<[u8; 32]> = Vec::new();
        let n: usize = self.bpb.byts_per_clus as usize / 32;
        let mut cluster: u32 = dir_clus;
        let mut iters: u32 = 0;
        assert(slot_views(slots@) =~= Seq::<SlotView>::empty());
        assert(dirent::entry_views(pending@) =~= Seq::<Seq<u8>>::empty());
        loop
            invariant
                o == *old(self),
                first == dir_clus,
                self.quiet(o),
                n == o.bpb.byts_per_clus / 32,
                o.bpb.total_clus + 2 <= u32::MAX,
                iters <= o.bpb.total_clus + 2,
                known == (o.sound() && exists|s: Seq<u32>| #[trigger] o.is_file_chain(first, s)),
                known ==> o.is_file_chain(first, s),
                forall|t: Seq<u32>| #[trigger] o.is_file_chain(first, t) ==> t == s,
                all == o.chain_bytes(s),
                known ==> iters < s.len() && cluster == s[iters as int],
                known ==> dir_files(all) == parse_from(
                    all,
                    iters * n,
                    dirent::entry_views(pending@),
                    slot_views(slots@),
                ),
            decreases o.bpb.total_clus + 3 - iters,
        {
            let ghost m = *self;
            let buf: Vec<u8> = match self.read_cluster(cluster) {
                Ok(v) => v,
                Err(e) => {
                    proof {
                        self.lemma_quiet_trans(m, o);
                    }
                    return Err(e);
                },
            };
            proof {
                self.lemma_quiet_trans(m, o);
                if known {
                    m.lemma_data_same(o, cluster as int);
                }
            }
            let ghost k = iters as int;
            let mut i: usize = 0;
            let mut ended = false;
            while i < n && !ended
                invariant
                    o.bpb.wf(),
                    i <= n,
                    n == o.bpb.byts_per_clus / 32,
                    buf@.len() == 32 * n,
                    all == o.chain_bytes(s),
                    known ==> 0 <= k < s.len() && buf@ == o.data(s[k] as int),
                    known && !ended ==> dir_files(all) == parse_from(
                        all,
                        k * n + i,
                        dirent::entry_views(pending@),
                        slot_views(slots@),
                    ),
                    known && ended ==> dir_files(all) == slot_views(slots@),
                decreases n - i + (if ended {
                    0int
                } else {
                    1int
                }),
            {
                let entry: [u8; 32] = entry_of(&buf, i);
                proof {
                    if known {
                        o.lemma_dir_entry(s, k, i as int);
                    }
                }
                let ghost before = slots@;
                let ghost pend = pending@;
                let attr: u8 = entry[0x0B];
                if entry[0] == DIR_END {
                    ended = true;
                } else if entry[0] == DIR_DELETED {
                    pending = Vec::new();
                    assert(dirent::entry_views(pending@) =~= Seq::<Seq<u8>>::empty());
                    i = i + 1;
                } else if attr == ATTR_LONG_NAME {
                    pending.push(entry);
                    assert(dirent::entry_views(pending@) =~= dirent::entry_views(pend).push(entry@));
                    i = i + 1;
                } else if attr / 8 % 2 == 1 {
                    pending = Vec::new();
                    assert(dirent::entry_views(pending@) =~= Seq::<Seq<u8>>::empty());
                    let none: Vec<[u8; 32]> = Vec::new();
                    assert(dirent::entry_views(none@) =~= Seq::<Seq<u8>>::empty());
                    slots.push(DirEntrySlot { vfat_entries: none, sfn_entry: entry });
                    assert(slot_views(slots@) =~= slot_views(before).push(
                        SlotView { vfat: Seq::empty(), sfn: entry@ },
                    ));
                    i = i + 1;
                } else {
                    let mut taken: Vec<[u8; 32]> = Vec::new();
                    std::mem::swap(&mut taken, &mut pending);
                    assert(dirent::entry_views(pending@) =~= Seq::<Seq<u8>>::empty());
                    slots.push(DirEntrySlot { vfat_entries: taken, sfn_entry: entry });
                    assert(slot_views(slots@) =~= slot_views(before).push(
                        SlotView { vfat: dirent::entry_views(pend), sfn: entry@ },
                    ));
                    i = i + 1;
                }
            }
            if ended {
                return Ok(slots);
            }
            let ghost m2 = *self;
            let read = self.read_fat_entry(cluster);
            proof {
                self.lemma_quiet_trans(m2, o);
                if known {
                    assert(o.is_cluster(s[k] as int));
                    assert(m2.entry(cluster as int) == o.entry(cluster as int));
                    if k < s.len() - 1 {
                        assert(o.entry(s[k] as int) == s[k + 1]);
                    }
                    assert(k * n + n == (k + 1) * n) by (nonlinear_arith);
                    if k == s.len() - 1 {
                        let cs = o.bpb.byts_per_clus as int;
                        assert(32 * ((k + 1) * n) == s.len() * cs) by (nonlinear_arith)
                            requires
                                k + 1 == s.len(),
                                cs == 32 * n,
                        ;
                    }
                }
            }
            let next: u32 = match read {
                Ok(v) => v,
                Err(e) => return Err(e),
            };
            if next >= EOC_MARKER {
                return Ok(slots);
            }
            cluster = next;
            if iters >= self.bpb.total_clus + 2 {
                proof {
                    if known {
                        o.lemma_file_chain_len(first, s);
                    }
                }
                return Err(VfsError::IOError);
            }
            iters = iters + 1;
        }
    }
}

/// The first of the entries of a long name that stand right before entry `i`.
pub open spec fn lfn_start(b: Seq<u8>, i: int) -> int
    decreases i,
{
    if i > 0 && entry_at(b, i - 1)[11] == ATTR_LONG_NAME {
        lfn_start(b, i - 1)
    } else {
        i
    }
}

/// The entries from `from` to `to`.
pub open spec fn entries_between(b: Seq<u8>, from: int, to: int) -> Seq<Seq<u8>> {
    Seq::new((to - from) as nat, |k: int| entry_at(b, from + k))
}

/// The name of entry `i`, by the entries of the same cluster.
pub open spec fn local_name(b: Seq<u8>, i: int) -> Seq<char> {
    let start = lfn_start(b, i);
    if start < i {
        text::utf16_lossy(dirent::name_units(entries_between(b, start, i)))
    } else {
        dirent::sfn_text(entry_at(b, i).take(11))
    }
}

/// What a search of a cluster comes to.
pub enum Scan {
    /// The entry with this number has the name.
    Found(int),
    /// The directory ends here, and no entry before has the name.
    Ended,
    /// No entry has the name, and the directory goes on.
    Absent,
}

/// The cluster `b` with the entries from `from` to `to` marked as deleted.
pub open spec fn with_deleted(b: Seq<u8>, from: int, to: int) -> Seq<u8> {
    Seq::new(
        b.len(),
        |p: int|
            if p % 32 == 0 && from <= p / 32 <= to {
                DIR_DELETED
            } else {
                b[p]
            },
    )
}

/// The entry names a file: it is not deleted, part of a long name, or a label.
pub open spec fn is_file_entry(e: Seq<u8>) -> bool {
    e[0] != DIR_DELETED && e[11] != ATTR_LONG_NAME && !is_label(e[11])
}

/// Searches the cluster `b` from entry `i` on for `name`, whatever the letter case.
pub open spec fn scan(b: Seq<u8>, i: int, name: Seq<char>) -> Scan
    decreases b.len() - 32 * i,
{
    if i < 0 || 32 * i + 32 > b.len() {
        Scan::Absent
    } else if entry_at(b, i)[0] == DIR_END {
        Scan::Ended
    } else if is_file_entry(entry_at(b, i)) && text::lower(local_name(b, i)) == text::lower(name) {
        Scan::Found(i)
    } else {
        scan(b, i + 1, name)
    }
}

/// What a search of a cluster has found: the entry and the first of its long name.
pub enum ScanResult {
    Found(usize, usize),
    Ended,
    Absent,
}

fn find_lfn_start(buf: &Vec<u8>, i: usize) -> (r: usize)
    requires
        32 * i + 32 <= buf@.len(),
    ensures
        r == lfn_start(buf@, i as int),
        r <= i,
{
    let mut start: usize = i;
    assert(buf@.len() == buf.len());
    while start > 0 && buf[(start - 1) * 32 + 0x0B] == ATTR_LONG_NAME
        invariant
            start <= i,
            32 * i + 32 <= buf.len(),
            lfn_start(buf@, i as int) == lfn_start(buf@, start as int),
        decreases start,
    {
        assert(entry_at(buf@, start - 1)[11] == buf@[(start - 1) * 32 + 11]);
        start = start - 1;
    }
    if start > 0 {
        assert(entry_at(buf@, start - 1)[11] == buf@[(start - 1) * 32 + 11]);
    }
    start
}

fn read_local_name(buf: &Vec<u8>, start: usize, i: usize) -> (r: String)
    requires
        32 * i + 32 <= buf@.len(),
        start == lfn_start(buf@, i as int),
        start <= i,
    ensures
        r@ == local_name(buf@, i as int),
{
    if start < i {
        let mut v: Vec<[u8; 32]> = Vec::new();
        let mut j: usize = start;
        while j < i
            invariant
                start <= j <= i,
                32 * i + 32 <= buf@.len(),
                v@.len() == j - start,
                forall|k: int| 0 <= k < j - start ==> (#[trigger] v@[k])@ == entry_at(
                    buf@,
                    start + k,
                ),
            decreases i - j,
        {
            v.push(entry_of(buf, j));
            j = j + 1;
        }
        assert(dirent::entry_views(v@) =~= entries_between(buf@, start as int, i as int));
        decode_vfat_name(&v)
    } else {
        let e: [u8; 32] = entry_of(buf, i);
        decode_sfn(&sfn_in(&e))
    }
}

/// Searches a cluster for a name.
pub fn scan_cluster(buf: &Vec<u8>, name: &str) -> (r: ScanResult)
    requires
        buf@.len() <= 0x1_0000,
    ensures
        match scan(buf@, 0, name@) {
            Scan::Found(i) => r == ScanResult::Found(i as usize, lfn_start(buf@, i) as usize) && 0
                <= lfn_start(buf@, i) <= i && 32 * i + 32 <= buf@.len(),
            Scan::Ended => r == ScanResult::Ended,
            Scan::Absent => r == ScanResult::Absent,
        },
{
    let n: usize = buf.len() / 32;
    let mut i: usize = 0;
    while i < n
        invariant
            i <= n,
            n == buf@.len() / 32,
            buf@.len() <= 0x1_0000,
            scan(buf@, 0, name@) == scan(buf@, i as int, name@),
        decreases n - i,
    {
        let e: [u8; 32] = entry_of(buf, i);
        if e[0] == DIR_END {
            return ScanResult::Ended;
        }
        let attr: u8 = e[0x0B];
        if !(e[0] == DIR_DELETED || attr == ATTR_LONG_NAME || attr / 8 % 2 == 1) {
            let start: usize = find_lfn_start(buf, i);
            let entry_name: String = read_local_name(buf, start, i);
            if same_ignoring_case(entry_name.as_str(), name) {
                return ScanResult::Found(i, start);
            }
        }
        i = i + 1;
    }
    ScanResult::Absent
}

impl<D: BlockDevice> Fat32SuperBlock<D> {
    /// The cluster of the directory `s`, from cluster `k` on, and the entry in it that
    /// has the name.
    pub open spec fn locate(self, s: Seq<u32>, k: int, name: Seq<char>) -> Option<(int, int)>
        decreases s.len() - k,
    {
        if k < 0 || k >= s.len() {
            None
        } else {
            match scan(self.data(s[k] as int), 0, name) {
                Scan::Found(i) => Some((k, i)),
                Scan::Ended => None,
                Scan::Absent => self.locate(s, k + 1, name),
            }
        }
    }

    /// Searches a directory for a name. Gives the number of the entry in its cluster,
    /// the first entry of its long name, the cluster and what the cluster holds.
    fn find_entry(&mut self, dir_clus: u32, name: &str) -> (r: Result<
        (u32, usize, usize, Vec<u8>),
        VfsError,
    >)
        requires
            old(self).inv(),
        ensures
            final(self).quiet(*old(self)),
            final(self).none_dirtied(*old(self)),
            match r {
                Ok((c, i, start, buf)) => buf@ == final(self).data(c as int) && 32 * i + 32
                    <= buf@.len() && start == lfn_start(buf@, i as int) && start <= i && forall|
                    s: Seq<u32>,
                | #[trigger]
                    old(self).is_file_chain(dir_clus as int, s) && old(self).sound()
                        ==> (old(self).locate(s, 0, name@) matches Some((k, j))
                        && 0 <= k < s.len() && c == s[k] && i
                        == j),
                Err(VfsError::NotFound) => forall|s: Seq<u32>| #[trigger]
                    old(self).is_file_chain(dir_clus as int, s) && old(self).sound()
                        ==> old(self).locate(s, 0, name@) is None,
                Err(e) => e == VfsError::IOError && (old(self).has_chain(dir_clus as int)
                    ==> final(self).faults() > old(self).faults()),
            },
    {
        let ghost o = *self;
        let ghost first = dir_clus as int;
        let ghost known = o.sound() && exists|s: Seq<u32>| #[trigger] o.is_file_chain(first, s);
        let ghost s = choose|s: Seq<u32>| #[trigger] o.is_file_chain(first, s);
        proof {
            assert forall|t: Seq<u32>| #[trigger] o.is_file_chain(first, t) implies t == s by {
                o.lemma_chain_unique(first, s, t);
            }
        }
        let mut cluster: u32 = dir_clus;
        let mut iters: u32 = 0;
        loop
            invariant
                o == *old(self),
                first == dir_clus,
                self.quiet(o),
                self.none_dirtied(o),
                o.bpb.total_clus + 2 <= u32::MAX,
                iters <= o.bpb.total_clus + 2,
                known == (o.sound() && exists|s: Seq<u32>| #[trigger] o.is_file_chain(first, s)),
                known ==> o.is_file_chain(first, s),
                forall|t: Seq<u32>| #[trigger] o.is_file_chain(first, t) ==> t == s,
                known ==> iters < s.len() && cluster == s[iters as int],
                known ==> o.locate(s, 0, name@) == o.locate(s, iters as int, name@),
            decreases o.bpb.total_clus + 3 - iters,
        {
            let ghost m = *self;
            let buf: Vec<u8> = match self.read_cluster(cluster) {
                Ok(v) => v,
                Err(e) => {
                    proof {
                        self.lemma_quiet_trans(m, o);
                    }
                    return Err(e);
                },
            };
            let ghost k = iters as int;
            proof {
                self.lemma_quiet_trans(m, o);
                if known {
                    m.lemma_data_same(o, cluster as int);
                }
            }
            match scan_cluster(&buf, name) {
                ScanResult::Found(i, start) => {
                    return Ok((cluster, i, start, buf));
                },
                ScanResult::Ended => {
                    return Err(VfsError::NotFound);
                },
                ScanResult::Absent => {},
            }
            if iters >= self.bpb.total_clus + 2 {
                proof {
                    if known {
                        o.lemma_file_chain_len(first, s);
                    }
                }
                return Err(VfsError::IOError);
            }
            let ghost m2 = *self;
            let read = self.read_fat_entry(cluster);
            proof {
                self.lemma_quiet_trans(m2, o);
                if known {
                    assert(o.is_cluster(s[k] as int));
                    assert(m2.entry(cluster as int) == o.entry(cluster as int));
                    if k < s.len() - 1 {
                        assert(o.entry(s[k] as int) == s[k + 1]);
                    }
                }
            }
            let next: u32 = match read {
                Ok(v) => v,
                Err(e) => return Err(e),
            };
            if next >= EOC_MARKER {
                return Err(VfsError::NotFound);
            }
            cluster = next;
            iters = iters + 1;
        }
    }

    /// From `o`, the bytes of cluster `c` were replaced by `content`; all else is as it was.
    pub open spec fn cluster_set(self, o: Self, c: int, content: Seq<u8>) -> bool {
        &&& self.sound()
        &&& self.same_rest(o)
        &&& self.same_table(o)
        &&& self.data(c) == content
        &&& forall|x: int| 2 <= x < 0x1_0000_0000 && x != c ==> #[trigger] self.data(x) == o.data(x)
    }

    /// From `o`, at most the bytes of cluster `c` have changed.
    pub open spec fn cluster_touched(self, o: Self, c: int) -> bool {
        &&& self.sound()
        &&& self.same_rest(o)
        &&& self.same_table(o)
        &&& forall|x: int| 2 <= x < 0x1_0000_0000 && x != c ==> #[trigger] self.data(x) == o.data(x)
    }

    pub proof fn lemma_cluster_set(self, m: Self, o: Self, c: int, content: Seq<u8>, ok: bool)
        requires
            o.sound(),
            m.quiet(o),
            2 <= c < 0x1_0000_0000,
            self.cluster_written(m, c, content, ok),
        ensures
            ok ==> self.cluster_set(o, c, content),
            self.cluster_touched(o, c),
    {
        assert forall|x: int| 2 <= x < 0x1_0000_0000 && x != c implies #[trigger] self.data(x)
            == o.data(x) by {
            m.lemma_data_same(o, x);
            assert(self.data(x) == m.data(x));
        }
        assert forall|x: int| o.has_entry(x) implies #[trigger] self.entry(x) == o.entry(x) by {
            assert(m.has_entry(x));
            assert(m.entry(x) == o.entry(x));
        }
    }

    /// The entry `e` with a new first cluster and size, where given, and without its
    /// times and dates.
    pub open spec fn updated_entry(e: Seq<u8>, clus: Option<u32>, size: Option<u32>) -> Seq<u8> {
        let a = match clus {
            Some(c) => dirent::with_cluster(e, c as int),
            None => e,
        };
        let b = match size {
            Some(n) => dirent::with_size(a, n as int),
            None => a,
        };
        dirent::without_timestamps(b)
    }

    /// Sets the first cluster and the size, where given, in the entry with the name.
    pub fn update_entry_cluster_and_size(
        &mut self,
        dir_clus: u32,
        name: &str,
        new_clus: Option<u32>,
        new_size: Option<u32>,
    ) -> (r: Result<(), VfsError>)
        requires
            old(self).inv(),
        ensures
            final(self).inv(),
            final(self).same_rest(*old(self)),
            final(self).none_dirtied(*old(self)),
            forall|s: Seq<u32>| #[trigger]
                old(self).is_file_chain(dir_clus as int, s) && old(self).sound() ==> match r {
                    Ok(_) => old(self).locate(s, 0, name@) matches Some((k, i)) && final(self).cluster_set(
                        *old(self),
                        s[k] as int,
                        bytes::splice(
                            old(self).data(s[k] as int),
                            32 * i,
                            Self::updated_entry(
                                entry_at(old(self).data(s[k] as int), i),
                                new_clus,
                                new_size,
                            ),
                        ),
                    ),
                    Err(VfsError::NotFound) => old(self).locate(s, 0, name@) is None
                        && final(self).quiet(*old(self)),
                    Err(_) => final(self).quiet(*old(self)) || (old(self).locate(
                        s,
                        0,
                        name@,
                    ) matches Some((k, i)) && final(self).cluster_touched(*old(self), s[k] as int)),
                },
            r matches Err(e) ==> (e == VfsError::NotFound && final(self).quiet(*old(self))) || (e
                == VfsError::IOError && (old(self).has_chain(dir_clus as int)
                ==> final(self).faults() > old(self).faults())),
    {
        let ghost o = *self;
        let (cluster, i, _start, mut buf) = match self.find_entry(dir_clus, name) {
            Ok(f) => f,
            Err(e) => return Err(e),
        };
        let ghost m = *self;
        let ghost was = buf@;
        let mut entry: [u8; 32] = entry_of(&buf, i);
        match new_clus {
            Some(c) => {
                set_first_clus_in_entry(&mut entry, c);
            },
            None => {},
        }
        match new_size {
            Some(n) => {
                set_file_size_in_entry(&mut entry, n);
            },
            None => {},
        }
        set_timestamps(&mut entry);
        assert(buf@.len() == buf.len());
        copy_at(buf.as_mut_slice(), i * 32, &entry);
        let r = self.write_cluster(cluster, buf.as_slice());
        proof {
            assert forall|s: Seq<u32>| #[trigger]
                o.is_file_chain(dir_clus as int, s) && o.sound() implies (o.locate(
                s,
                0,
                name@,
            ) matches Some((k, j)) && self.cluster_touched(o, s[k] as int) && (r is Ok
                ==> self.cluster_set(o, s[k] as int, buf@)) && was == o.data(s[k] as int)) by {
                let (k, j) = o.locate(s, 0, name@)->0;
                assert(o.is_cluster(s[k] as int));
                self.lemma_cluster_set(m, o, cluster as int, buf@, r is Ok);
                m.lemma_data_same(o, cluster as int);
            }
        }
        r
    }

    /// Removes a name from a directory: marks its entry, and those of its long name in
    /// the same cluster, as deleted.
    pub fn remove_dir_entries(&mut self, dir_clus: u32, name: &str) -> (r: Result<(), VfsError>)
        requires
            old(self).inv(),
        ensures
            final(self).inv(),
            final(self).same_rest(*old(self)),
            forall|s: Seq<u32>| #[trigger]
                old(self).is_file_chain(dir_clus as int, s) && old(self).sound() ==> match r {
                    Ok(_) => old(self).locate(s, 0, name@) matches Some((k, i)) && final(self).cluster_set(
                        *old(self),
                        s[k] as int,
                        with_deleted(
                            old(self).data(s[k] as int),
                            lfn_start(old(self).data(s[k] as int), i),
                            i,
                        ),
                    ),
                    Err(VfsError::NotFound) => old(self).locate(s, 0, name@) is None
                        && final(self).quiet(*old(self)),
                    Err(_) => final(self).quiet(*old(self)) || (old(self).locate(
                        s,
                        0,
                        name@,
                    ) matches Some((k, i)) && final(self).cluster_touched(*old(self), s[k] as int)),
                },
            r matches Err(e) ==> (e == VfsError::NotFound && final(self).quiet(*old(self))) || (e
                == VfsError::IOError && (old(self).has_chain(dir_clus as int)
                ==> final(self).faults() > old(self).faults())),
    {
        let ghost o = *self;
        let (cluster, i, start, mut buf) = match self.find_entry(dir_clus, name) {
            Ok(f) => f,
            Err(e) => return Err(e),
        };
        let ghost m = *self;
        let ghost was = buf@;
        assert(buf@.len() == buf.len());
        let mut j: usize = start;
        while j <= i
            invariant
                start <= j <= i + 1,
                32 * i + 32 <= buf.len(),
                buf@.len() == was.len(),
                forall|p: int|
                    0 <= p < was.len() ==> #[trigger] buf@[p] == (if p % 32 == 0 && start <= p / 32
                        < j {
                        DIR_DELETED
                    } else {
                        was[p]
                    }),
            decreases i + 1 - j,
        {
            buf[j * 32] = DIR_DELETED;
            j = j + 1;
        }
        assert(buf@ =~= with_deleted(was, start as int, i as int));
        let r = self.write_cluster(cluster, buf.as_slice());
        proof {
            assert forall|s: Seq<u32>| #[trigger]
                o.is_file_chain(dir_clus as int, s) && o.sound() implies (o.locate(
                s,
                0,
                name@,
            ) matches Some((k, j)) && self.cluster_touched(o, s[k] as int) && (r is Ok
                ==> self.cluster_set(o, s[k] as int, buf@)) && was == o.data(s[k] as int)) by {
                let (k, j) = o.locate(s, 0, name@)->0;
                assert(o.is_cluster(s[k] as int));
                self.lemma_cluster_set(m, o, cluster as int, buf@, r is Ok);
                m.lemma_data_same(o, cluster as int);
            }
        }
        r
    }
}

} // verus!
