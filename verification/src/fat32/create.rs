//! Making files and directories.

use std::sync::Arc;
use vstd::prelude::*;

use crate::blockdriver::traits::BlockDevice;
use crate::bytes;
use crate::bytes::copy_at;
use crate::collections;
use crate::collections::SfnSet;
use crate::fat32::dirent;
use crate::fat32::dirent::{
    lfn_slot_count, sfn_from_name, DirEntrySlot, ATTR_ARCHIVE, ATTR_DIRECTORY, MAX_LFN_ENTRIES,
};
use crate::fat32::dir_write;
use crate::fat32::file_write;
use crate::fat32::grow;
use crate::fat32::inode::Fat32Inode;
use crate::fat32::names;
use crate::fat32::names::{build_group, choose_sfn, find_slot, keep_case, make_entry};
use crate::fat32::superblock::{Fat32SuperBlock, EOC_MARKER};
use crate::text;
use crate::vfs::{FileType, VfsError};

verus! {

impl<D: BlockDevice> Fat32SuperBlock<D> {
    /// Entries that were added in a volume that is the same.
    pub proof fn lemma_put_from(self, q: Self, o: Self, clus: u32, entries: Seq<Seq<u8>>)
        requires
            q.quiet(o),
            self.entries_put(q, clus, entries),
        ensures
            self.entries_put(o, clus, entries),
    {
        assert forall|d: Seq<u32>| #[trigger]
            o.is_file_chain(clus as int, d) && o.sound() implies self.entries_added(
            o,
            d,
            entries,
        ) by {
            file_write::lemma_chain_same(o, q, clus as int, d);
            let n = entries.len() as int;
            lemma_place_same(q, o, d, 0, n);
            match o.place(d, 0, n) {
                Some((k, i)) => {
                    lemma_place_in(o, d, 0, n);
                    q.lemma_data_same(o, d[k] as int);
                    self.lemma_set_from(q, o, d[k] as int, self.data(d[k] as int));
                },
                None => {
                    if o.tracked_ok() {
                        dir_write::lemma_tracked_quiet(o, q);
                        let c = choose|c: u32| #[trigger] self.dir_grown(q, d, c, entries);
                        assert(self.dir_grown(q, d, c, entries));
                        assert(self.is_cluster(d.push(c)[d.len() as int] as int));
                        assert(o.has_entry(c as int));
                        assert(q.entry(c as int) == o.entry(c as int));
                        assert forall|x: int|
                            o.has_entry(x) && x != d.last() && x != c implies #[trigger] self.entry(
                            x,
                        ) == o.entry(x) by {
                            assert(q.has_entry(x));
                            assert(q.entry(x) == o.entry(x));
                        }
                        assert forall|x: int| 2 <= x < 0x1_0000_0000 && x != c implies #[trigger] self.data(
                            x,
                        ) == o.data(x) by {
                            q.lemma_data_same(o, x);
                            assert(self.data(x) == q.data(x));
                        }
                        assert(self.dir_grown(o, d, c, entries));
                    }
                },
            }
        }
    }

    /// From `o`, cluster `c`, which was free, holds a new directory whose parent's first
    /// cluster is `parent`.
    pub open spec fn dir_made(self, o: Self, c: u32, parent: u32) -> bool {
        &&& self.inv()
        &&& self.same_but_alloc(o)
        &&& o.tracked_ok() ==> {
            &&& self.tracked_ok()
            &&& o.is_cluster(c as int)
            &&& o.entry(c as int) == 0
            &&& self.free_clus_count as int == (o.free_clus_count - 1) % 0x1_0000_0000
            &&& self.next_alloc_hint == c + 1
            &&& is_new_dir(self.data(c as int), o.bpb.byts_per_clus as int, c, parent)
            &&& forall|x: int|
                o.has_entry(x) ==> #[trigger] self.entry(x) == (if x == c {
                    EOC_MARKER as int
                } else {
                    o.entry(x)
                })
            &&& forall|x: int|
                2 <= x < 0x1_0000_0000 && x != c ==> #[trigger] self.data(x) == o.data(x)
        }
    }

    /// Where the volume is the same, chains are.
    pub proof fn lemma_still_chained(self, o: Self, first: int)
        requires
            self.quiet(o),
        ensures
            o.has_chain(first) ==> self.has_chain(first),
    {
        if o.has_chain(first) {
            let d = choose|d: Seq<u32>| #[trigger] o.is_file_chain(first, d);
            file_write::lemma_chain_same(o, self, first, d);
            assert(self.is_file_chain(first, d));
        }
    }

    /// A directory that is made in a free cluster leaves other chains alone.
    proof fn lemma_chained_beside(self, o: Self, c: u32, first: u32)
        requires
            o.tracked_ok(),
            self.dir_made(o, c, first),
        ensures
            o.has_chain(first as int) ==> self.has_chain(first as int),
    {
        if o.has_chain(first as int) {
            let d = choose|d: Seq<u32>| #[trigger] o.is_file_chain(first as int, d);
            assert forall|k: int| 0 <= k < d.len() implies self.is_cluster(#[trigger] d[k] as int)
                && self.entry(d[k] as int) == o.entry(d[k] as int) by {
                assert(o.is_cluster(d[k] as int));
                grow::lemma_chain_taken(o, first as int, d, k);
                assert(d[k] != c);
                assert(o.has_entry(d[k] as int));
            }
            assert forall|k: int| 0 <= k < d.len() - 1 implies #[trigger] self.entry(d[k] as int)
                == d[k + 1] by {
                assert(o.entry(d[k] as int) == d[k + 1]);
            }
            assert(self.entry(d[d.len() - 1] as int) == o.entry(d[d.len() - 1] as int));
            assert(self.is_file_chain(first as int, d));
        }
    }

    /// Allocates a cluster and makes it a directory.
    fn make_dir_cluster(&mut self, parent: u32) -> (r: Result<u32, VfsError>)
        requires
            old(self).inv(),
        ensures
            final(self).inv(),
            final(self).same_places(*old(self)),
            old(self).faults() <= final(self).faults(),
            match r {
                Ok(c) => final(self).dir_made(*old(self), c, parent),
                Err(VfsError::NoSpace) => old(self).short_of(1) && (final(self).faults()
                    == old(self).faults() ==> final(self).quiet(*old(self))),
                Err(e) => e == VfsError::IOError && final(self).faults() > old(self).faults(),
            },
    {
        let ghost o = *self;
        let c: u32 = match self.alloc_cluster() {
            Ok(c) => c,
            Err(e) => return Err(e),
        };
        let ghost a = *self;
        match self.zero_cluster(c) {
            Ok(_) => {},
            Err(e) => return Err(e),
        }
        let ghost z = *self;
        let buf: Vec<u8> = new_dir_cluster(self.bpb.byts_per_clus, c, parent);
        match self.write_cluster(c, buf.as_slice()) {
            Ok(_) => {},
            Err(e) => return Err(e),
        }
        proof {
            let f = *self;
            if o.tracked_ok() {
                let v = seq![c];
                assert(v[0] == c);
                a.lemma_allocated(o, v);
                assert forall|x: int| o.has_entry(x) implies #[trigger] f.entry(x) == (if x == c {
                    EOC_MARKER as int
                } else {
                    o.entry(x)
                }) by {
                    assert(a.has_entry(x) && z.has_entry(x));
                    assert(z.entry(x) == a.entry(x));
                    if crate::fat32::allocator::among(v, 1, x) {
                        let k = choose|k: int| 0 <= k < 1 && #[trigger] v[k] == x;
                    }
                    if x == c {
                        assert(crate::fat32::allocator::among(v, 1, x));
                    }
                }
                assert forall|x: int| 2 <= x < 0x1_0000_0000 && x != c implies #[trigger] f.data(x)
                    == o.data(x) by {
                    a.lemma_data_same(o, x);
                    assert(z.data(x) == a.data(x));
                }
                if f.alloc_bitmap is Some {
                    let b = f.alloc_bitmap->0;
                    assert forall|i: int| 0 <= i < f.bpb.total_clus implies #[trigger] b.bit(i) == (
                    f.entry(i + 2) != 0) by {
                        assert(a.has_entry(i + 2) && z.has_entry(i + 2));
                        assert(z.entry(i + 2) == a.entry(i + 2));
                        let ab = a.alloc_bitmap->0;
                        assert(ab.bit(i) == (a.entry(i + 2) != 0));
                    }
                }
            }
        }
        Ok(c)
    }
}

proof fn lemma_place_same<D: BlockDevice>(
    q: Fat32SuperBlock<D>,
    o: Fat32SuperBlock<D>,
    d: Seq<u32>,
    k: int,
    n: int,
)
    requires
        o.bpb.wf(),
        q.bpb == o.bpb,
        q.same_data(o),
    ensures
        q.place(d, k, n) == o.place(d, k, n),
    decreases d.len() - k,
{
    if 0 <= k < d.len() {
        q.lemma_data_same(o, d[k] as int);
        lemma_place_same(q, o, d, k + 1, n);
    }
}

proof fn lemma_place_in<D: BlockDevice>(o: Fat32SuperBlock<D>, d: Seq<u32>, k: int, n: int)
    requires
        0 <= k,
        o.place(d, k, n) is Some,
    ensures
        k <= (o.place(d, k, n)->0).0 < d.len(),
    decreases d.len() - k,
{
    if dir_write::find_room(o.data(d[k] as int), 0, n) is None {
        lemma_place_in(o, d, k + 1, n);
    }
}

/// `b` is what the first cluster `c` of a new directory holds: entries for itself and
/// for its parent.
pub open spec fn is_new_dir(b: Seq<u8>, cs: int, c: u32, parent: u32) -> bool {
    exists|dot: Seq<u8>, up: Seq<u8>| #[trigger]
        names::is_short_name("."@, Set::empty(), dot) && #[trigger] names::is_short_name(
            ".."@,
            Set::empty(),
            up,
        ) && b == bytes::splice(
            bytes::splice(
                grow::zeros(cs),
                0,
                names::short_entry(dot, ATTR_DIRECTORY, 0, c as int, 0),
            ),
            32,
            names::short_entry(up, ATTR_DIRECTORY, 0, parent as int, 0),
        )
}

/// What the first cluster of a new directory holds.
fn new_dir_cluster(cs: u32, c: u32, parent: u32) -> (r: Vec<u8>)
    requires
        512 <= cs <= 0x1_0000,
    ensures
        is_new_dir(r@, cs as int, c, parent),
        r@.len() == cs,
{
    let empty: SfnSet = SfnSet::new();
    proof {
        reveal_strlit(".");
        reveal_strlit("..");
        assert(!collections::sfn_set(empty).contains(
            dirent::sfn_candidate(vstd::utf8::encode_utf8("."@), 0),
        ));
        assert(!collections::sfn_set(empty).contains(
            dirent::sfn_candidate(vstd::utf8::encode_utf8(".."@), 0),
        ));
    }
    let dot: [u8; 11] = match sfn_from_name(".", &empty) {
        Some(s) => s,
        None => [32u8; 11],
    };
    let up: [u8; 11] = match sfn_from_name("..", &empty) {
        Some(s) => s,
        None => [32u8; 11],
    };
    assert(names::is_short_name("."@, Set::empty(), dot@));
    assert(names::is_short_name(".."@, Set::empty(), up@));
    let mut buf: Vec<u8> = vec![0u8; cs as usize];
    assert(buf@ =~= grow::zeros(cs as int));
    let e1: [u8; 32] = make_entry(&dot, ATTR_DIRECTORY, 0, c, 0);
    let e2: [u8; 32] = make_entry(&up, ATTR_DIRECTORY, 0, parent, 0);
    copy_at(buf.as_mut_slice(), 0, &e1);
    copy_at(buf.as_mut_slice(), 32, &e2);
    buf
}

impl Fat32Inode {
    /// From `a` to `f` by way of `m`, a file was made in the directory under the name, by
    /// the entries `es`, and a handle on it was given out.
    pub open spec fn created<D: BlockDevice>(
        self,
        o: Fat32SuperBlock<D>,
        a: Fat32SuperBlock<D>,
        m: Fat32SuperBlock<D>,
        f: Fat32SuperBlock<D>,
        name: Seq<char>,
        sfn: Seq<u8>,
        es: Seq<Seq<u8>>,
        attr: u8,
        clus: u32,
    ) -> bool {
        &&& dirent::lfn_slots(name) <= MAX_LFN_ENTRIES
        &&& names::is_group(es, name, sfn, attr, Self::new_case(name, attr), clus as int, 0)
        &&& m.entries_put(a, self.first_clus, es)
        &&& f.opened(m, self.first_clus, name, true)
        &&& forall|d: Seq<u32>| #[trigger]
            self.lists(o, d) ==> names::first_named(o.listing(d), name, 0) is None
                && names::is_short_name(name, names::short_names(o.listing(d), None), sfn)
    }

    /// The entry of a new file fits its directory's clusters, or its name is too long
    /// anyway.
    pub open spec fn name_fits(name: Seq<char>, cs: int) -> bool {
        dirent::lfn_slots(name) <= MAX_LFN_ENTRIES ==> 32 * names::group_len(name) <= cs
    }

    /// What the entry of a new file keeps of the case of its name; that of a new directory
    /// keeps nothing.
    pub open spec fn new_case(name: Seq<char>, attr: u8) -> u8 {
        if attr == ATTR_DIRECTORY {
            0
        } else {
            names::kept_case(name)
        }
    }

    /// The directory lists the name.
    pub open spec fn has_name<D: BlockDevice>(
        self,
        o: Fat32SuperBlock<D>,
        name: Seq<char>,
    ) -> bool {
        exists|d: Seq<u32>| #[trigger]
            self.lists(o, d) && names::first_named(o.listing(d), name, 0) is Some
    }

    /// What a refused name is refused for.
    pub open spec fn name_refused<D: BlockDevice>(
        self,
        o: Fat32SuperBlock<D>,
        name: Seq<char>,
    ) -> bool {
        ||| dirent::lfn_slots(name) > MAX_LFN_ENTRIES
        ||| self.first_clus < 2
        ||| forall|d: Seq<u32>| #[trigger]
            self.lists(o, d) ==> names::no_short_name(
                name,
                names::short_names(o.listing(d), None),
            )
    }

    /// Registers a handle for a file that was just made.
    fn open_new<D: BlockDevice>(
        &self,
        sb: &mut Fat32SuperBlock<D>,
        name: &str,
        first_clus: u32,
        file_type: FileType,
    ) -> (r: Fat32Inode)
        ensures
            r.first_clus == first_clus,
            r.size == 0,
            r.file_type == file_type,
            r.mtime == 0,
            r.placed_at(
                self.first_clus,
                name@,
                old(sb).ino_at(self.first_clus, name@),
                old(sb).next_handle,
            ),
            final(sb).opened(*old(sb), self.first_clus, name@, true),
    {
        let ghost key = (self.first_clus, text::lower(name@));
        let ghost m = *sb;
        let ino: u64 = sb.ino_for(self.first_clus, name);
        proof {
            assert(m.inos().contains_key(key) ==> m.inos().insert(key, ino) =~= m.inos());
        }
        let handle: u64 = sb.new_handle();
        sb.register_handle(self.first_clus, name, handle);
        Fat32Inode {
            first_clus,
            size: 0,
            file_type,
            ino,
            mtime: 0,
            parent_clus: self.first_clus,
            entry_name: name.to_string(),
            handle,
            dir_cache: None,
            dir_generation: 0,
        }
    }

    /// Makes an empty file.
    pub fn create<D: BlockDevice>(&mut self, sb: &mut Fat32SuperBlock<D>, name: &str) -> (r: Result<
        Fat32Inode,
        VfsError,
    >)
        requires
            old(sb).inv(),
            old(self).file_type == FileType::Directory && !old(self).has_name(*old(sb), name@)
                ==> Self::name_fits(name@, old(sb).bpb.byts_per_clus as int),
        ensures
            final(sb).inv(),
            old(self).file_type != FileType::Directory ==> r == Err::<Fat32Inode, VfsError>(
                VfsError::NotADirectory,
            ) && *final(self) == *old(self) && *final(sb) == *old(sb),
            old(self).file_type == FileType::Directory ==> match r {
                Ok(node) => {
                    &&& final(self).listing_changed(*old(self))
                    &&& node.first_clus == 0
                    &&& node.size == 0
                    &&& node.file_type == FileType::Regular
                    &&& node.mtime == 0
                    &&& node.placed_at(
                        old(self).first_clus,
                        name@,
                        old(sb).ino_at(old(self).first_clus, name@),
                        old(sb).next_handle,
                    )
                    &&& exists|m: Fat32SuperBlock<D>, sfn: Seq<u8>, es: Seq<Seq<u8>>| #[trigger]
                        old(self).created(
                            *old(sb),
                            *old(sb),
                            m,
                            *final(sb),
                            name@,
                            sfn,
                            es,
                            ATTR_ARCHIVE,
                            0,
                        )
                },
                Err(VfsError::AlreadyExists) => final(sb).quiet(*old(sb)) && forall|d: Seq<u32>|
                 #[trigger]
                    old(self).lists(*old(sb), d) ==> names::first_named(
                        old(sb).listing(d),
                        name@,
                        0,
                    ) is Some,
                Err(VfsError::InvalidInput) => final(sb).quiet(*old(sb)) && old(self).name_refused(
                    *old(sb),
                    name@,
                ),
                Err(VfsError::NoSpace) => (old(sb).sound() ==> old(sb).short_of(1)) && (
                final(sb).faults() == old(sb).faults() ==> final(sb).quiet(*old(sb))),
                Err(e) => e == VfsError::IOError && (old(sb).has_chain(old(self).first_clus as int)
                    ==> final(sb).faults() > old(sb).faults()),
            },
            r is Err ==> final(self).same_but_cache(*old(self)) && final(sb).same_places(*old(sb)),
    {
        if self.file_type != FileType::Directory {
            return Err(VfsError::NotADirectory);
        }
        let ghost o = *sb;
        let ghost n0 = *self;
        let slots: Arc<Vec<DirEntrySlot>> = match self.get_dir_slots(sb) {
            Ok(v) => v,
            Err(e) => return Err(e),
        };
        let ghost q = *sb;
        if find_slot(&slots, name).is_some() {
            return Err(VfsError::AlreadyExists);
        }
        assert(!n0.has_name(o, name@)) by {
            if n0.has_name(o, name@) {
                let d = choose|d: Seq<u32>| #[trigger]
                    n0.lists(o, d) && names::first_named(o.listing(d), name@, 0) is Some;
                assert(n0.lists(o, d));
            }
        }
        if lfn_slot_count(name) > MAX_LFN_ENTRIES {
            return Err(VfsError::InvalidInput);
        }
        let sfn: [u8; 11] = match choose_sfn(&slots, name, None) {
            Ok(s) => s,
            Err(e) => return Err(e),
        };
        let group: Vec<[u8; 32]> = build_group(name, &sfn, ATTR_ARCHIVE, keep_case(name), 0, 0);
        match sb.write_dir_entries(self.first_clus, &group) {
            Ok(_) => {},
            Err(e) => {
                proof {
                    q.lemma_still_chained(o, n0.first_clus as int);
                    if e == VfsError::NoSpace {
                        if o.sound() {
                            q.lemma_short_same(o, 1);
                        }
                        if sb.faults() == o.faults() {
                            sb.lemma_quiet_trans(q, o);
                        }
                    }
                }
                return Err(e);
            },
        }
        let ghost m = *sb;
        self.dir_generation = self.dir_generation.wrapping_add(1);
        let node: Fat32Inode = self.open_new(sb, name, 0, FileType::Regular);
        proof {
            let es = dirent::entry_views(group@);
            assert(m.entries_put(q, n0.first_clus, es));
            m.lemma_put_from(q, o, n0.first_clus, es);
            assert(m.ino_at(n0.first_clus, name@) == o.ino_at(n0.first_clus, name@));
            assert(n0.created(o, o, m, *sb, name@, sfn@, es, ATTR_ARCHIVE, 0));
        }
        Ok(node)
    }

    /// Makes an empty directory.
    pub fn mkdir<D: BlockDevice>(&mut self, sb: &mut Fat32SuperBlock<D>, name: &str) -> (r: Result<
        Fat32Inode,
        VfsError,
    >)
        requires
            old(sb).inv(),
            old(self).file_type == FileType::Directory && !old(self).has_name(*old(sb), name@)
                ==> Self::name_fits(name@, old(sb).bpb.byts_per_clus as int),
        ensures
            final(sb).inv(),
            old(self).file_type != FileType::Directory ==> r == Err::<Fat32Inode, VfsError>(
                VfsError::NotADirectory,
            ) && *final(self) == *old(self) && *final(sb) == *old(sb),
            old(self).file_type == FileType::Directory ==> match r {
                Ok(node) => {
                    &&& final(self).listing_changed(*old(self))
                    &&& node.size == 0
                    &&& node.file_type == FileType::Directory
                    &&& node.mtime == 0
                    &&& node.placed_at(
                        old(self).first_clus,
                        name@,
                        old(sb).ino_at(old(self).first_clus, name@),
                        old(sb).next_handle,
                    )
                    &&& exists|
                        q: Fat32SuperBlock<D>,
                        a: Fat32SuperBlock<D>,
                        m: Fat32SuperBlock<D>,
                        sfn: Seq<u8>,
                        es: Seq<Seq<u8>>,
                    |
                        #[trigger] q.quiet(*old(sb)) && #[trigger] a.dir_made(
                            q,
                            node.first_clus,
                            old(self).first_clus,
                        ) && #[trigger] old(self).created(
                            *old(sb),
                            a,
                            m,
                            *final(sb),
                            name@,
                            sfn,
                            es,
                            ATTR_DIRECTORY,
                            node.first_clus,
                        )
                },
                Err(VfsError::AlreadyExists) => final(sb).quiet(*old(sb)) && forall|d: Seq<u32>|
                 #[trigger]
                    old(self).lists(*old(sb), d) ==> names::first_named(
                        old(sb).listing(d),
                        name@,
                        0,
                    ) is Some,
                Err(VfsError::InvalidInput) => old(self).name_refused(*old(sb), name@) && if
                    dirent::lfn_slots(name@) > MAX_LFN_ENTRIES {
                    final(sb).quiet(*old(sb))
                } else {
                    exists|q: Fat32SuperBlock<D>, c: u32|
                        q.quiet(*old(sb)) && #[trigger] final(sb).dir_made(
                            q,
                            c,
                            old(self).first_clus,
                        )
                },
                Err(VfsError::NoSpace) => {
                    ||| (old(sb).sound() ==> old(sb).short_of(1)) && (final(sb).faults()
                        == old(sb).faults() ==> final(sb).quiet(*old(sb)))
                    ||| exists|q: Fat32SuperBlock<D>, a: Fat32SuperBlock<D>, c: u32|
                        #[trigger] q.quiet(*old(sb)) && #[trigger] a.dir_made(
                            q,
                            c,
                            old(self).first_clus,
                        ) && (a.sound() ==> a.short_of(1)) && (final(sb).faults() == a.faults()
                            ==> final(sb).quiet(a))
                },
                Err(e) => e == VfsError::IOError && (old(sb).has_chain(old(self).first_clus as int)
                    && old(sb).tracked_ok() ==> final(sb).faults() > old(sb).faults()),
            },
            r is Err ==> final(self).same_but_cache(*old(self)) && final(sb).same_places(*old(sb)),
    {
        if self.file_type != FileType::Directory {
            return Err(VfsError::NotADirectory);
        }
        let ghost o = *sb;
        let ghost n0 = *self;
        let slots: Arc<Vec<DirEntrySlot>> = match self.get_dir_slots(sb) {
            Ok(v) => v,
            Err(e) => return Err(e),
        };
        let ghost q = *sb;
        if find_slot(&slots, name).is_some() {
            return Err(VfsError::AlreadyExists);
        }
        assert(!n0.has_name(o, name@)) by {
            if n0.has_name(o, name@) {
                let d = choose|d: Seq<u32>| #[trigger]
                    n0.lists(o, d) && names::first_named(o.listing(d), name@, 0) is Some;
                assert(n0.lists(o, d));
            }
        }
        if lfn_slot_count(name) > MAX_LFN_ENTRIES {
            return Err(VfsError::InvalidInput);
        }
        let new_clus: u32 = match sb.make_dir_cluster(self.first_clus) {
            Ok(c) => c,
            Err(e) => {
                proof {
                    if e == VfsError::NoSpace {
                        if o.sound() {
                            q.lemma_short_same(o, 1);
                        }
                        if sb.faults() == o.faults() {
                            sb.lemma_quiet_trans(q, o);
                        }
                    }
                }
                return Err(e);
            },
        };
        let ghost a = *sb;
        assert(a.dir_made(q, new_clus, n0.first_clus));
        let sfn: [u8; 11] = match choose_sfn(&slots, name, None) {
            Ok(s) => s,
            Err(e) => return Err(e),
        };
        let group: Vec<[u8; 32]> = build_group(name, &sfn, ATTR_DIRECTORY, 0, new_clus, 0);
        match sb.write_dir_entries(self.first_clus, &group) {
            Ok(_) => {},
            Err(e) => {
                assert(a.dir_made(q, new_clus, n0.first_clus));
                assert(q.quiet(o));
                proof {
                    q.lemma_still_chained(o, n0.first_clus as int);
                    if o.tracked_ok() {
                        dir_write::lemma_tracked_quiet(o, q);
                        a.lemma_chained_beside(q, new_clus, n0.first_clus);
                    }
                }
                return Err(e);
            },
        }
        let ghost m = *sb;
        self.dir_generation = self.dir_generation.wrapping_add(1);
        let node: Fat32Inode = self.open_new(sb, name, new_clus, FileType::Directory);
        proof {
            let es = dirent::entry_views(group@);
            assert(m.entries_put(a, n0.first_clus, es));
            assert(m.ino_at(n0.first_clus, name@) == o.ino_at(n0.first_clus, name@));
            assert(n0.created(o, a, m, *sb, name@, sfn@, es, ATTR_DIRECTORY, new_clus));
            assert(a.dir_made(q, new_clus, n0.first_clus));
            assert(q.quiet(o));
        }
        Ok(node)
    }
}

} // verus!
