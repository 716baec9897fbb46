//! The steps that changes of directories are made of.

use vstd::prelude::*;

use crate::blockdriver::traits::BlockDevice;
use crate::fat32::allocator;
use crate::fat32::dir;
use crate::fat32::dirent;
use crate::fat32::orphans;
use crate::fat32::superblock::{Fat32SuperBlock, EOC_MARKER};
use crate::fat32::file_write;
use crate::bytes;
use crate::bytes::copy_at;
use crate::fat32::dir::entry_of;
use crate::fat32::dirent::set_first_clus_in_entry;
use crate::vfs::VfsError;

verus! {

impl<D: BlockDevice> Fat32SuperBlock<D> {
    /// From `o`, the name was removed from the directory whose first cluster is `clus`.
    pub open spec fn name_removed(self, o: Self, clus: u32, name: Seq<char>) -> bool {
        &&& self.inv()
        &&& self.same_rest(o)
        &&& forall|d: Seq<u32>| #[trigger]
            o.is_file_chain(clus as int, d) && o.sound() ==> (o.locate(d, 0, name) matches Some(
                (k, i),
            ) && self.cluster_set(
                o,
                d[k] as int,
                dir::with_deleted(
                    o.data(d[k] as int),
                    dir::lfn_start(o.data(d[k] as int), i),
                    i,
                ),
            ))
    }

    /// From `o`, `entries` were added to the directory whose first cluster is `clus`.
    pub open spec fn entries_put(self, o: Self, clus: u32, entries: Seq<Seq<u8>>) -> bool {
        &&& self.inv()
        &&& self.same_but_alloc(o)
        &&& forall|d: Seq<u32>| #[trigger]
            o.is_file_chain(clus as int, d) && o.sound() ==> self.entries_added(o, d, entries)
    }

    /// The volume is sound, and following links from `first` on comes to an end within it, or
    /// does not begin.
    pub open spec fn has_walk(self, first: u32) -> bool {
        self.sound() && (!(2 <= first < EOC_MARKER) || exists|w: Seq<u32>| #[trigger]
            self.is_walk(first as int, w))
    }

    /// From `o`, the clusters from `first` on were freed.
    pub open spec fn chain_released(self, o: Self, first: u32) -> bool {
        if 2 <= first < EOC_MARKER {
            &&& self.inv()
            &&& self.chains() == o.chains().remove(first)
            &&& forall|w: Seq<u32>| #[trigger]
                o.is_walk(first as int, w) && o.sound() ==> self.freed(o, w, w.len() as int)
        } else {
            &&& self.chains() == o.chains()
            &&& self.quiet(o)
        }
    }

    /// From `o`, the clusters from `first` on, where it is a cluster, were freed, as far as
    /// the device let that happen.
    pub open spec fn chain_let_go(self, o: Self, first: u32) -> bool {
        if orphans::starts_chain(first) {
            &&& self.inv()
            &&& self.same_places(o)
            &&& self.chains() == o.chains().remove(first)
            &&& self.next_alloc_hint == o.next_alloc_hint
            &&& forall|w: Seq<u32>| #[trigger]
                o.is_walk(first as int, w) && o.sound() ==> self.freed(o, w, w.len() as int) || (
                self.faults() > o.faults() && self.sound() && self.same_data(o)
                    && self.entries_kept(o, w))
        } else {
            self == o
        }
    }

    /// From `o`, the chains that start at the first `n` of `firsts` were freed one behind
    /// the other, as far as the device let that happen.
    pub open spec fn chains_let_go(self, o: Self, firsts: Seq<u32>, n: int) -> bool
        decreases n,
    {
        if n <= 0 {
            self == o
        } else {
            exists|m: Self|
                m.chains_let_go(o, firsts, n - 1) && #[trigger] self.chain_let_go(
                    m,
                    firsts[n - 1],
                )
        }
    }

    /// All but the table, the clusters, their allocation and the chains is as in `o`.
    pub open spec fn same_places(self, o: Self) -> bool {
        &&& self.bpb == o.bpb
        &&& self.next_ino == o.next_ino
        &&& self.ino_map == o.ino_map
        &&& self.handle_registry == o.handle_registry
        &&& self.open_handles == o.open_handles
        &&& self.unlinked_handles == o.unlinked_handles
        &&& self.next_handle == o.next_handle
        &&& self.volume_dirty == o.volume_dirty
        &&& crate::fat32::io::same_device(self.device, o.device)
    }

    /// Where the volume is the same, a search of a directory finds the same.
    pub proof fn lemma_quiet_locate(self, o: Self, d: Seq<u32>, name: Seq<char>)
        requires
            o.sound(),
            self.quiet(o),
        ensures
            self.locate(d, 0, name) == o.locate(d, 0, name),
    {
        assert forall|j: int| 0 <= j < d.len() implies self.data(#[trigger] d[j] as int) == o.data(
            d[j] as int,
        ) by {
            self.lemma_data_same(o, d[j] as int);
        }
        self.lemma_locate_same(o, d, 0, name);
    }

    /// A name that was removed in a volume that is the same.
    pub proof fn lemma_removed_from(self, q: Self, o: Self, clus: u32, name: Seq<char>)
        requires
            q.quiet(o),
            self.name_removed(q, clus, name),
        ensures
            self.name_removed(o, clus, name),
    {
        assert forall|d: Seq<u32>| #[trigger]
            o.is_file_chain(clus as int, d) && o.sound() implies (o.locate(d, 0, name) matches Some(
            (k, i),
        ) && self.cluster_set(
            o,
            d[k] as int,
            dir::with_deleted(o.data(d[k] as int), dir::lfn_start(o.data(d[k] as int), i), i),
        )) by {
            file_write::lemma_chain_same(o, q, clus as int, d);
            q.lemma_quiet_locate(o, d, name);
            let (k, i) = o.locate(d, 0, name)->0;
            o.lemma_located(d, 0, name);
            q.lemma_data_same(o, d[k] as int);
            self.lemma_set_from(q, o, d[k] as int, self.data(d[k] as int));
        }
    }

    /// A cluster that was set in a volume that is the same.
    pub proof fn lemma_set_from(self, q: Self, o: Self, c: int, content: Seq<u8>)
        requires
            o.sound(),
            q.quiet(o),
            self.cluster_set(q, c, content),
        ensures
            self.cluster_set(o, c, content),
    {
        assert forall|x: int| o.has_entry(x) implies #[trigger] self.entry(x) == o.entry(x) by {
            assert(q.has_entry(x));
            assert(q.entry(x) == o.entry(x));
        }
        assert forall|x: int| 2 <= x < 0x1_0000_0000 && x != c implies #[trigger] self.data(x)
            == o.data(x) by {
            q.lemma_data_same(o, x);
            assert(self.data(x) == q.data(x));
        }
    }

    /// A cluster that was set stays so while the volume stays the same.
    pub proof fn lemma_set_then(self, m: Self, o: Self, c: int, content: Seq<u8>)
        requires
            m.cluster_set(o, c, content),
            o.bpb.wf(),
            self.quiet(m),
            0 <= c < 0x1_0000_0000,
        ensures
            self.cluster_set(o, c, content),
    {
        assert forall|x: int| o.has_entry(x) implies #[trigger] self.entry(x) == o.entry(x) by {
            assert(m.has_entry(x));
            assert(m.entry(x) == o.entry(x));
        }
        self.lemma_data_same(m, c);
        assert forall|x: int| 2 <= x < 0x1_0000_0000 && x != c implies #[trigger] self.data(x)
            == o.data(x) by {
            self.lemma_data_same(m, x);
            assert(m.data(x) == o.data(x));
        }
    }

    /// From `o`, at most the bytes of the clusters `d` have changed.
    pub open spec fn touched_within(self, o: Self, d: Seq<u32>) -> bool {
        &&& self.sound()
        &&& self.same_rest(o)
        &&& self.same_table(o)
        &&& forall|x: int|
            2 <= x < 0x1_0000_0000 && !allocator::among(d, d.len() as int, x)
                ==> #[trigger] self.data(x) == o.data(x)
    }

    /// A volume in which at most some clusters were touched stays so while it is the same.
    proof fn lemma_touched_quiet(self, m: Self, o: Self, d: Seq<u32>)
        requires
            o.bpb.wf(),
            m.touched_within(o, d),
            self.quiet(m),
        ensures
            self.touched_within(o, d),
    {
        assert forall|x: int| o.has_entry(x) implies #[trigger] self.entry(x) == o.entry(x) by {
            assert(m.has_entry(x));
            assert(m.entry(x) == o.entry(x));
        }
        assert forall|x: int|
            2 <= x < 0x1_0000_0000 && !allocator::among(
                d,
                d.len() as int,
                x,
            ) implies #[trigger] self.data(x) == o.data(x) by {
            self.lemma_data_same(m, x);
            assert(m.data(x) == o.data(x));
        }
    }

    /// Removes a name from a directory, and writes the table back.
    pub fn drop_name(&mut self, dir_clus: u32, name: &str) -> (r: Result<(), VfsError>)
        requires
            old(self).inv(),
        ensures
            final(self).inv(),
            final(self).same_rest(*old(self)),
            match r {
                Ok(_) => final(self).name_removed(*old(self), dir_clus, name@)
                    && final(self).written_back(),
                Err(VfsError::NotFound) => final(self).quiet(*old(self)) && forall|d: Seq<u32>|
                 #[trigger]
                    old(self).is_file_chain(dir_clus as int, d) && old(self).sound()
                        ==> old(self).locate(d, 0, name@) is None,
                Err(e) => e == VfsError::IOError && (old(self).has_chain(dir_clus as int)
                    ==> final(self).faults() > old(self).faults()),
            },
            forall|d: Seq<u32>| #[trigger]
                old(self).is_file_chain(dir_clus as int, d) && old(self).sound()
                    ==> final(self).touched_within(*old(self), d),
    {
        let ghost o = *self;
        let removed = self.remove_dir_entries(dir_clus, name);
        let ghost m = *self;
        proof {
            assert forall|d: Seq<u32>| #[trigger]
                o.is_file_chain(dir_clus as int, d) && o.sound() implies m.touched_within(o, d) by {
                if m.quiet(o) {
                    assert forall|x: int| 2 <= x < 0x1_0000_0000 implies #[trigger] m.data(x)
                        == o.data(x) by {
                        m.lemma_data_same(o, x);
                    }
                } else {
                    let (k, i) = o.locate(d, 0, name@)->0;
                    o.lemma_located(d, 0, name@);
                    assert(allocator::among(d, d.len() as int, d[k] as int));
                }
            }
        }
        match removed {
            Ok(_) => {},
            Err(e) => return Err(e),
        }
        let flushed = self.flush_fat_cache();
        proof {
            assert forall|d: Seq<u32>| #[trigger]
                o.is_file_chain(dir_clus as int, d) && o.sound() implies self.touched_within(
                o,
                d,
            ) by {
                self.lemma_touched_quiet(m, o, d);
            }
        }
        match flushed {
            Ok(_) => {},
            Err(e) => return Err(e),
        }
        proof {
            assert forall|d: Seq<u32>| #[trigger]
                o.is_file_chain(dir_clus as int, d) && o.sound() implies (o.locate(
                d,
                0,
                name@,
            ) matches Some((k, i)) && self.cluster_set(
                o,
                d[k] as int,
                dir::with_deleted(o.data(d[k] as int), dir::lfn_start(o.data(d[k] as int), i), i),
            )) by {
                let (k, i) = o.locate(d, 0, name@)->0;
                self.lemma_set_then(m, o, d[k] as int, m.data(d[k] as int));
            }
        }
        Ok(())
    }

    /// Frees the clusters from `first` on, where it is a cluster, and writes the table
    /// back.
    pub fn release_chain(&mut self, first: u32) -> (r: Result<(), VfsError>)
        requires
            old(self).inv(),
        ensures
            final(self).inv(),
            final(self).same_places(*old(self)),
            match r {
                Ok(_) => final(self).chain_released(*old(self), first)
                    && final(self).written_back(),
                Err(e) => e == VfsError::IOError && (old(self).has_walk(first)
                    ==> final(self).faults() > old(self).faults()),
            },
            forall|w: Seq<u32>| #[trigger]
                old(self).is_walk(first as int, w) && old(self).sound() ==> final(self).sound()
                    && final(self).same_data(*old(self)) && final(self).entries_kept(
                    *old(self),
                    w,
                ),
    {
        let ghost o = *self;
        if first >= 2 && first < EOC_MARKER {
            self.invalidate_chain(first);
            let ghost i = *self;
            let freed = self.free_chain(first);
            let ghost m = *self;
            proof {
                assert forall|w: Seq<u32>| #[trigger]
                    o.is_walk(first as int, w) && o.sound() implies m.sound() && m.same_data(o)
                    && m.entries_kept(o, w) by {
                    i.lemma_same_source(o);
                    lemma_walk_moved(o, i, first, w);
                    m.lemma_same_data_trans(i, o);
                    assert forall|x: int|
                        o.has_entry(x) && !allocator::among(
                            w,
                            w.len() as int,
                            x,
                        ) implies #[trigger] m.entry(x) == o.entry(x) by {
                        assert(i.has_entry(x));
                        assert(i.entry(x) == o.entry(x));
                    }
                }
            }
            match freed {
                Ok(_) => {},
                Err(e) => {
                    proof {
                        if o.has_walk(first) {
                            let w = choose|w: Seq<u32>| #[trigger] o.is_walk(first as int, w);
                            i.lemma_same_source(o);
                            lemma_walk_moved(o, i, first, w);
                        }
                    }
                    return Err(e);
                },
            }
            let flushed = self.flush_fat_cache();
            proof {
                let f = *self;
                assert forall|w: Seq<u32>| #[trigger]
                    o.is_walk(first as int, w) && o.sound() implies f.sound() && f.same_data(o)
                    && f.entries_kept(o, w) by {
                    f.lemma_same_data_trans(m, o);
                    assert forall|x: int|
                        o.has_entry(x) && !allocator::among(
                            w,
                            w.len() as int,
                            x,
                        ) implies #[trigger] f.entry(x) == o.entry(x) by {
                        assert(m.has_entry(x));
                        assert(m.entry(x) == o.entry(x));
                    }
                }
            }
            match flushed {
                Ok(_) => {},
                Err(e) => return Err(e),
            }
            proof {
                let f = *self;
                i.lemma_same_source(o);
                assert forall|w: Seq<u32>| #[trigger]
                    o.is_walk(first as int, w) && o.sound() implies f.freed(
                    o,
                    w,
                    w.len() as int,
                ) by {
                    assert(i.sound());
                    lemma_walk_moved(o, i, first, w);
                    assert(i.same_data(o));
                    m.lemma_same_data_trans(i, o);
                    f.lemma_same_data_trans(m, o);
                    assert forall|x: int| o.has_entry(x) implies #[trigger] f.entry(x) == (
                    if allocator::among(w, w.len() as int, x) {
                        0
                    } else {
                        o.entry(x)
                    }) by {
                        assert(i.has_entry(x) && m.has_entry(x));
                        assert(m.entry(x) == f.entry(x));
                        assert(i.entry(x) == o.entry(x));
                    }
                }
            }
            return Ok(());
        }
        let r = self.flush_fat_cache();
        r
    }

    /// Frees the clusters from `c` on, where it is a cluster, as far as the device lets that
    /// happen.
    pub fn let_chain_go(&mut self, c: u32)
        requires
            old(self).inv(),
        ensures
            final(self).inv(),
            final(self).chain_let_go(*old(self), c),
    {
        if c < 2 || c >= EOC_MARKER {
            return;
        }
        let ghost o = *self;
        self.invalidate_chain(c);
        let ghost i = *self;
        let ghost first = c as int;
        let _ = self.free_chain(c);
        proof {
            let f = *self;
            i.lemma_same_source(o);
            assert forall|w: Seq<u32>| #[trigger]
                o.is_walk(first, w) && o.sound() implies f.freed(o, w, w.len() as int) || (
            f.faults() > o.faults() && f.sound() && f.same_data(o) && f.entries_kept(o, w)) by {
                lemma_walk_moved(o, i, c, w);
                assert(i.sound() && i.same_data(o));
                f.lemma_same_data_trans(i, o);
                if f.freed(i, w, w.len() as int) {
                    assert forall|x: int| o.has_entry(x) implies #[trigger] f.entry(x) == (
                    if allocator::among(w, w.len() as int, x) {
                        0
                    } else {
                        o.entry(x)
                    }) by {
                        assert(i.has_entry(x));
                        assert(i.entry(x) == o.entry(x));
                    }
                } else {
                    assert(f.entries_kept(i, w));
                    assert forall|x: int|
                        o.has_entry(x) && !allocator::among(
                            w,
                            w.len() as int,
                            x,
                        ) implies #[trigger] f.entry(x) == o.entry(x) by {
                        assert(i.has_entry(x));
                        assert(i.entry(x) == o.entry(x));
                    }
                }
            }
        }
    }

    /// Cluster `b` with `clus` as the first cluster in its second entry, which leads to
    /// the parent of a directory.
    pub open spec fn with_parent(b: Seq<u8>, clus: u32) -> Seq<u8> {
        bytes::splice(b, 32, dirent::with_cluster(dir::entry_at(b, 1), clus as int))
    }

    /// Makes the entry `..` of the directory whose first cluster is `fc` lead to
    /// `parent`.
    pub fn set_parent(&mut self, fc: u32, parent: u32) -> (r: Result<(), VfsError>)
        requires
            old(self).inv(),
        ensures
            final(self).inv(),
            final(self).same_rest(*old(self)),
            final(self).fat_cache == old(self).fat_cache,
            r is Ok && old(self).sound() && 2 <= fc ==> final(self).cluster_set(
                *old(self),
                fc as int,
                Self::with_parent(old(self).data(fc as int), parent),
            ),
            r matches Err(e) ==> e == VfsError::IOError && final(self).faults()
                > old(self).faults(),
    {
        let ghost o = *self;
        let mut buf: Vec<u8> = match self.read_cluster(fc) {
            Ok(b) => b,
            Err(e) => return Err(e),
        };
        let ghost q = *self;
        let mut entry: [u8; 32] = entry_of(&buf, 1);
        set_first_clus_in_entry(&mut entry, parent);
        copy_at(buf.as_mut_slice(), 32, &entry);
        let r = self.write_cluster(fc, buf.as_slice());
        proof {
            if o.sound() && 2 <= fc {
                self.lemma_cluster_set(q, o, fc as int, buf@, r is Ok);
            }
        }
        r
    }
}

/// Where the entries are the same, so is a walk.
proof fn lemma_walk_moved<D: BlockDevice>(
    o: Fat32SuperBlock<D>,
    i: Fat32SuperBlock<D>,
    first: u32,
    w: Seq<u32>,
)
    requires
        o.is_walk(first as int, w),
        i.bpb == o.bpb,
        forall|x: int| #[trigger] i.entry(x) == o.entry(x),
    ensures
        i.is_walk(first as int, w),
{
    assert forall|k: int| 0 <= k < w.len() implies i.is_cluster(#[trigger] w[k] as int) by {
        assert(o.is_cluster(w[k] as int));
    }
    assert forall|k: int| 0 <= k < w.len() - 1 implies #[trigger] i.entry(w[k] as int) == w[k
        + 1] by {
        assert(o.entry(w[k] as int) == w[k + 1]);
    }
}

/// What was freed is free by the bitmap too.
pub proof fn lemma_freed_tracked<D: BlockDevice>(
    o: Fat32SuperBlock<D>,
    f: Fat32SuperBlock<D>,
    w: Seq<u32>,
)
    requires
        o.tracked_ok(),
        f.bpb == o.bpb,
        f.freed(o, w, w.len() as int),
    ensures
        f.tracked_ok(),
{
    if f.alloc_bitmap is Some {
        let b = f.alloc_bitmap->0;
        assert forall|i: int| 0 <= i < f.bpb.total_clus implies #[trigger] b.bit(i) == (f.entry(
            i + 2,
        ) != 0) by {
            assert(o.has_entry(i + 2));
            let ob = o.alloc_bitmap->0;
            assert(ob.bit(i) == (o.entry(i + 2) != 0));
        }
    }
}

} // verus!
