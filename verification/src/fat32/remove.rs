//! Removing files and directories.

use std::sync::Arc;
use vstd::prelude::*;

use crate::blockdriver::traits::BlockDevice;
use crate::fat32::dir;
use crate::fat32::dirent;
use crate::fat32::dirent::{first_clus_from_entry, DirEntrySlot};
use crate::fat32::inode::Fat32Inode;
use crate::fat32::names;
use crate::fat32::names::find_slot;
use crate::fat32::superblock::{Fat32SuperBlock, EOC_MARKER};
use crate::vfs::{FileType, VfsError};
use crate::text::same_text;

verus! {

impl Fat32Inode {
    /// From `o` to `f`, the name was removed from the directory; the clusters from `fc`
    /// on were freed if no handle is open on the file, and are left to the handles
    /// otherwise. The table was written back behind each of the two.
    pub open spec fn name_gone<D: BlockDevice>(
        self,
        o: Fat32SuperBlock<D>,
        m: Fat32SuperBlock<D>,
        h: Fat32SuperBlock<D>,
        f: Fat32SuperBlock<D>,
        name: Seq<char>,
        fc: u32,
    ) -> bool {
        &&& m.name_removed(o, self.first_clus, name)
        &&& m.written_back()
        &&& f.written_back()
        &&& h.orphaned(m, self.first_clus, name, 0)
        &&& if m.open_at(self.first_clus, name).len() == 0 && 2 <= fc < EOC_MARKER {
            f.chain_released(h, fc) && f.same_places(h)
        } else {
            f == h
        }
    }

    /// The listing has the name, for a file of the type, whose first cluster is `fc`.
    pub open spec fn lists_file<D: BlockDevice>(
        self,
        o: Fat32SuperBlock<D>,
        name: Seq<char>,
        directory: bool,
        fc: u32,
    ) -> bool {
        forall|d: Seq<u32>| #[trigger]
            self.lists(o, d) ==> (names::first_named(o.listing(d), name, 0) matches Some(k)
                && dir::is_directory(o.listing(d)[k].sfn[11]) == directory && dirent::entry_cluster(
                o.listing(d)[k].sfn,
            ) == fc)
    }

    /// Following links from the first cluster of a file of that name comes to an end, and
    /// so does the chain of a directory.
    pub open spec fn has_file<D: BlockDevice>(
        self,
        o: Fat32SuperBlock<D>,
        name: Seq<char>,
        directory: bool,
    ) -> bool {
        forall|fc: u32| #[trigger]
            self.lists_file(o, name, directory, fc) ==> o.has_walk(fc) && (directory
                ==> o.has_chain(fc as int))
    }

    fn take_out<D: BlockDevice>(&mut self, sb: &mut Fat32SuperBlock<D>, name: &str, fc: u32) -> (r:
        Result<(), VfsError>)
        requires
            old(sb).inv(),
        ensures
            final(sb).inv(),
            final(self).listing_changed(*old(self)) || *final(self) == *old(self),
            match r {
                Ok(_) => final(self).listing_changed(*old(self)) && exists|
                    m: Fat32SuperBlock<D>,
                    h: Fat32SuperBlock<D>,
                | #[trigger]
                    old(self).name_gone(*old(sb), m, h, *final(sb), name@, fc),
                Err(VfsError::NotFound) => final(sb).quiet(*old(sb)) && *final(self) == *old(self)
                    && forall|d: Seq<u32>| #[trigger]
                    old(sb).is_file_chain(old(self).first_clus as int, d) && old(sb).sound()
                        ==> old(sb).locate(d, 0, name@) is None,
                Err(e) => e == VfsError::IOError && (old(sb).has_chain(old(self).first_clus as int)
                    && old(sb).has_walk(fc) ==> final(sb).faults() > old(sb).faults()),
            },
    {
        let ghost o = *sb;
        let ghost n0 = *self;
        let parent: u32 = self.first_clus;
        match sb.drop_name(parent, name) {
            Ok(_) => {},
            Err(e) => return Err(e),
        }
        let ghost m = *sb;
        self.dir_generation = self.dir_generation.wrapping_add(1);
        let live: usize = sb.mark_handles_unlinked(parent, name);
        let ghost h = *sb;
        assert(h.orphaned(m, parent, name@, 0));
        if live == 0 && fc >= 2 && fc < EOC_MARKER {
            match sb.release_chain(fc) {
                Ok(_) => {},
                Err(e) => {
                    proof {
                        m.lemma_walk_beside(o, parent, name@, fc);
                        h.lemma_walk_handles(m, fc);
                    }
                    return Err(e);
                },
            }
        }
        assert(n0.name_gone(o, m, h, *sb, name@, fc));
        Ok(())
    }

    /// Removes a file. Its clusters are freed at once, or, where the file is open, once
    /// the last handle on it is closed.
    pub fn unlink<D: BlockDevice>(&mut self, sb: &mut Fat32SuperBlock<D>, name: &str) -> (r: Result<
        (),
        VfsError,
    >)
        requires
            old(sb).inv(),
        ensures
            final(sb).inv(),
            final(self).listing_changed(*old(self)) || final(self).same_but_cache(*old(self)),
            old(self).file_type != FileType::Directory ==> r == Err::<(), VfsError>(
                VfsError::NotADirectory,
            ) && *final(self) == *old(self) && *final(sb) == *old(sb),
            old(self).file_type == FileType::Directory && (name@ == "."@ || name@ == ".."@) ==> r
                == Err::<(), VfsError>(VfsError::InvalidInput) && *final(self) == *old(self)
                && *final(sb) == *old(sb),
            old(self).file_type == FileType::Directory && !(name@ == "."@ || name@ == ".."@)
                ==> match r {
                Ok(_) => final(self).listing_changed(*old(self)) && exists|
                    m: Fat32SuperBlock<D>,
                    h: Fat32SuperBlock<D>,
                    fc: u32,
                |
                    #[trigger] old(self).name_gone(*old(sb), m, h, *final(sb), name@, fc)
                        && old(self).lists_file(*old(sb), name@, false, fc),
                Err(VfsError::IsADirectory) => final(sb).quiet(*old(sb))
                    && final(self).same_but_cache(*old(self)) && exists|fc: u32| #[trigger]
                    old(self).lists_file(*old(sb), name@, true, fc),
                Err(VfsError::NotFound) => final(sb).quiet(*old(sb)) && final(self).same_but_cache(
                    *old(self),
                ) && forall|d: Seq<u32>| #[trigger]
                    old(self).lists(*old(sb), d) ==> names::first_named(
                        old(sb).listing(d),
                        name@,
                        0,
                    ) is None || old(sb).locate(d, 0, name@) is None,
                Err(e) => e == VfsError::IOError && (old(sb).has_chain(old(self).first_clus as int)
                    && old(self).has_file(*old(sb), name@, false) ==> final(sb).faults()
                    > old(sb).faults()),
            },
    {
        if self.file_type != FileType::Directory {
            return Err(VfsError::NotADirectory);
        }
        if same_text(name, ".") || same_text(name, "..") {
            return Err(VfsError::InvalidInput);
        }
        let ghost o = *sb;
        let ghost n0 = *self;
        let slots: Arc<Vec<DirEntrySlot>> = match self.get_dir_slots(sb) {
            Ok(v) => v,
            Err(e) => return Err(e),
        };
        let ghost q = *sb;
        let k: usize = match find_slot(&slots, name) {
            Some(k) => k,
            None => return Err(VfsError::NotFound),
        };
        let fc: u32 = first_clus_from_entry(&slots[k].sfn_entry);
        let directory = slots[k].sfn_entry[0x0B] / 16 % 2 == 1;
        assert(dir::slot_views(slots@)[k as int].sfn == slots@[k as int].sfn_entry@);
        assert(n0.lists_file(o, name@, directory, fc));
        if directory {
            return Err(VfsError::IsADirectory);
        }
        let ghost n1 = *self;
        let r = self.take_out(sb, name, fc);
        proof {
            q.lemma_still_chained(o, n0.first_clus as int);
            q.lemma_still_walked(o, fc);
            lemma_gone_from(n0, n1, o, q, *sb, name@, fc, r is Ok);
            if r == Err::<(), VfsError>(VfsError::NotFound) {
                sb.lemma_quiet_trans(q, o);
                assert forall|d: Seq<u32>| #[trigger] n0.lists(o, d) implies o.locate(
                    d,
                    0,
                    name@,
                ) is None by {
                    crate::fat32::file_write::lemma_chain_same(o, q, n0.first_clus as int, d);
                    q.lemma_quiet_locate(o, d, name@);
                }
            }
        }
        r
    }

    /// Removes a directory, which must be empty but for the entries for itself and its
    /// parent.
    pub fn rmdir<D: BlockDevice>(&mut self, sb: &mut Fat32SuperBlock<D>, name: &str) -> (r: Result<
        (),
        VfsError,
    >)
        requires
            old(sb).inv(),
        ensures
            final(sb).inv(),
            final(self).listing_changed(*old(self)) || final(self).same_but_cache(*old(self)),
            old(self).file_type != FileType::Directory ==> r == Err::<(), VfsError>(
                VfsError::NotADirectory,
            ) && *final(self) == *old(self) && *final(sb) == *old(sb),
            old(self).file_type == FileType::Directory && (name@ == "."@ || name@ == ".."@) ==> r
                == Err::<(), VfsError>(VfsError::InvalidInput) && *final(self) == *old(self)
                && *final(sb) == *old(sb),
            old(self).file_type == FileType::Directory && !(name@ == "."@ || name@ == ".."@)
                ==> match r {
                Ok(_) => final(self).listing_changed(*old(self)) && exists|
                    m: Fat32SuperBlock<D>,
                    h: Fat32SuperBlock<D>,
                    fc: u32,
                |
                    #[trigger] old(self).name_gone(*old(sb), m, h, *final(sb), name@, fc)
                        && old(self).lists_file(*old(sb), name@, true, fc)
                        && old(sb).is_empty_dir(fc),
                Err(VfsError::NotADirectory) => final(sb).quiet(*old(sb))
                    && final(self).same_but_cache(*old(self)) && exists|fc: u32| #[trigger]
                    old(self).lists_file(*old(sb), name@, false, fc),
                Err(VfsError::NotEmpty) => final(sb).quiet(*old(sb)) && final(self).same_but_cache(
                    *old(self),
                ) && exists|fc: u32| #[trigger]
                    old(self).lists_file(*old(sb), name@, true, fc) && old(sb).is_full_dir(fc),
                Err(VfsError::NotFound) => final(sb).quiet(*old(sb)) && final(self).same_but_cache(
                    *old(self),
                ) && forall|d: Seq<u32>| #[trigger]
                    old(self).lists(*old(sb), d) ==> names::first_named(
                        old(sb).listing(d),
                        name@,
                        0,
                    ) is None || old(sb).locate(d, 0, name@) is None,
                Err(e) => e == VfsError::IOError && (old(sb).has_chain(old(self).first_clus as int)
                    && old(self).has_file(*old(sb), name@, true) ==> final(sb).faults()
                    > old(sb).faults()),
            },
    {
        if self.file_type != FileType::Directory {
            return Err(VfsError::NotADirectory);
        }
        if same_text(name, ".") || same_text(name, "..") {
            return Err(VfsError::InvalidInput);
        }
        let ghost o = *sb;
        let ghost n0 = *self;
        let slots: Arc<Vec<DirEntrySlot>> = match self.get_dir_slots(sb) {
            Ok(v) => v,
            Err(e) => return Err(e),
        };
        let ghost q = *sb;
        let k: usize = match find_slot(&slots, name) {
            Some(k) => k,
            None => return Err(VfsError::NotFound),
        };
        let fc: u32 = first_clus_from_entry(&slots[k].sfn_entry);
        let directory = slots[k].sfn_entry[0x0B] / 16 % 2 == 1;
        assert(dir::slot_views(slots@)[k as int].sfn == slots@[k as int].sfn_entry@);
        assert(n0.lists_file(o, name@, directory, fc));
        if !directory {
            return Err(VfsError::NotADirectory);
        }
        proof {
            q.lemma_still_chained(o, fc as int);
        }
        let child: Vec<DirEntrySlot> = match sb.read_dir_slots(fc) {
            Ok(v) => v,
            Err(e) => return Err(e),
        };
        let ghost q2 = *sb;
        proof {
            q2.lemma_quiet_trans(q, o);
            assert forall|c: Seq<u32>| #[trigger]
                o.is_file_chain(fc as int, c) && o.sound() implies o.listing(c).len()
                == child@.len() by {
                crate::fat32::file_write::lemma_chain_same(o, q, fc as int, c);
                q.lemma_quiet_listing(o, c);
            }
        }
        if child.len() > 2 {
            assert(o.is_full_dir(fc));
            return Err(VfsError::NotEmpty);
        }
        let ghost n1 = *self;
        let r = self.take_out(sb, name, fc);
        proof {
            q2.lemma_still_chained(o, n0.first_clus as int);
            q2.lemma_still_walked(o, fc);
            lemma_gone_from(n0, n1, o, q2, *sb, name@, fc, r is Ok);
            if r == Err::<(), VfsError>(VfsError::NotFound) {
                sb.lemma_quiet_trans(q2, o);
                assert forall|d: Seq<u32>| #[trigger] n0.lists(o, d) implies o.locate(
                    d,
                    0,
                    name@,
                ) is None by {
                    crate::fat32::file_write::lemma_chain_same(o, q2, n0.first_clus as int, d);
                    q2.lemma_quiet_locate(o, d, name@);
                }
            }
        }
        r
    }
}

impl<D: BlockDevice> Fat32SuperBlock<D> {
    /// Where the table is the same, so is a walk.
    pub proof fn lemma_walk_same(self, o: Self, first: int, w: Seq<u32>)
        requires
            o.sound(),
            o.is_walk(first, w),
            self.bpb == o.bpb,
            self.same_table(o),
        ensures
            self.is_walk(first, w),
    {
        assert forall|k: int| 0 <= k < w.len() implies self.is_cluster(#[trigger] w[k] as int)
            && self.entry(w[k] as int) == o.entry(w[k] as int) by {
            assert(o.is_cluster(w[k] as int));
            assert(o.has_entry(w[k] as int));
        }
        assert forall|k: int| 0 <= k < w.len() - 1 implies #[trigger] self.entry(w[k] as int) == w[k
            + 1] by {
            assert(o.entry(w[k] as int) == w[k + 1]);
        }
        if w.len() > 0 {
            assert(self.entry(w[w.len() - 1] as int) == o.entry(w[w.len() - 1] as int));
        }
    }

    /// Where the table is the same, a walk still comes to its end.
    proof fn lemma_walked(self, o: Self, fc: u32)
        requires
            self.bpb == o.bpb,
            self.sound(),
            self.same_table(o),
        ensures
            o.has_walk(fc) ==> self.has_walk(fc),
    {
        if o.has_walk(fc) && 2 <= fc < EOC_MARKER {
            let w = choose|w: Seq<u32>| #[trigger] o.is_walk(fc as int, w);
            self.lemma_walk_same(o, fc as int, w);
        }
    }

    /// Where the volume is the same, a walk still comes to its end.
    pub proof fn lemma_still_walked(self, o: Self, fc: u32)
        requires
            self.quiet(o),
        ensures
            o.has_walk(fc) ==> self.has_walk(fc),
    {
        if o.has_walk(fc) {
            self.lemma_walked(o, fc);
        }
    }

    /// Handles have no part in what the links lead to.
    pub proof fn lemma_walk_handles(self, m: Self, fc: u32)
        requires
            m.inv(),
            self == (Fat32SuperBlock {
                unlinked_handles: self.unlinked_handles,
                handle_registry: self.handle_registry,
                ..m
            }),
        ensures
            m.has_walk(fc) ==> self.has_walk(fc),
            forall|first: int| #[trigger] m.has_chain(first) ==> self.has_chain(first),
    {
        self.lemma_same_source(m);
        if m.has_walk(fc) {
            self.lemma_walked(m, fc);
        }
        assert forall|first: int| #[trigger] m.has_chain(first) implies self.has_chain(first) by {
            let d = choose|d: Seq<u32>| #[trigger] m.is_file_chain(first, d);
            crate::fat32::file_write::lemma_chain_same(m, self, first, d);
        }
    }

    /// Removing a name leaves the links alone.
    pub proof fn lemma_walk_beside(self, o: Self, clus: u32, name: Seq<char>, fc: u32)
        requires
            self.name_removed(o, clus, name),
        ensures
            o.has_chain(clus as int) && o.has_walk(fc) ==> self.has_walk(fc),
            o.has_chain(clus as int) ==> self.same_table(o) && self.sound(),
    {
        if o.has_chain(clus as int) {
            let d = choose|d: Seq<u32>| #[trigger] o.is_file_chain(clus as int, d);
            assert(o.locate(d, 0, name) is Some);
            if o.has_walk(fc) {
                self.lemma_walked(o, fc);
            }
        }
    }

    /// The directory whose first cluster is `fc` lists no more than itself and its
    /// parent.
    pub open spec fn is_empty_dir(self, fc: u32) -> bool {
        forall|c: Seq<u32>| #[trigger]
            self.is_file_chain(fc as int, c) && self.sound() ==> self.listing(c).len() <= 2
    }

    /// The directory whose first cluster is `fc` lists more than itself and its parent.
    pub open spec fn is_full_dir(self, fc: u32) -> bool {
        forall|c: Seq<u32>| #[trigger]
            self.is_file_chain(fc as int, c) && self.sound() ==> self.listing(c).len() > 2
    }
}

/// A name that was removed from a volume that is the same.
proof fn lemma_gone_from<D: BlockDevice>(
    n0: Fat32Inode,
    n1: Fat32Inode,
    o: Fat32SuperBlock<D>,
    q: Fat32SuperBlock<D>,
    f: Fat32SuperBlock<D>,
    name: Seq<char>,
    fc: u32,
    ok: bool,
)
    requires
        q.quiet(o),
        n1.first_clus == n0.first_clus,
        ok ==> exists|m: Fat32SuperBlock<D>, h: Fat32SuperBlock<D>| #[trigger]
            n1.name_gone(q, m, h, f, name, fc),
    ensures
        ok ==> exists|m: Fat32SuperBlock<D>, h: Fat32SuperBlock<D>| #[trigger]
            n0.name_gone(o, m, h, f, name, fc),
{
    if ok {
        let (m, h) = choose|m: Fat32SuperBlock<D>, h: Fat32SuperBlock<D>| #[trigger]
            n1.name_gone(q, m, h, f, name, fc);
        m.lemma_removed_from(q, o, n0.first_clus, name);
        assert(n0.name_gone(o, m, h, f, name, fc));
    }
}

} // verus!
