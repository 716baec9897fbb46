//! Renaming and moving files and directories.

use std::sync::Arc;
use vstd::prelude::*;
use vstd::utf8;

use crate::blockdriver::traits::BlockDevice;
use crate::fat32::dir;
use crate::fat32::dir::sfn_in;
use crate::fat32::dirent;
use crate::fat32::dirent::{
    file_size_from_entry, first_clus_from_entry, lfn_slot_count, needs_vfat,
    DirEntrySlot, MAX_LFN_ENTRIES,
};
use crate::fat32::handles;
use crate::fat32::inode;
use crate::fat32::inode::Fat32Inode;
use crate::fat32::names;
use crate::fat32::names::{build_group, choose_sfn, find_slot, keep_case};
use crate::fat32::superblock::{Fat32SuperBlock, EOC_MARKER};
use crate::text;
use crate::vfs::{FileType, VfsError};
use crate::text::same_text;

verus! {

impl<D: BlockDevice> Fat32SuperBlock<D> {
    /// From `m`, the handles on one place are on the other.
    pub open spec fn handles_moved(
        self,
        m: Self,
        src: u32,
        old_name: Seq<char>,
        dst: u32,
        new_name: Seq<char>,
    ) -> bool {
        let from = (src, text::lower(old_name));
        let to = (dst, text::lower(new_name));
        let moved = handles::live(m.handles_at(src, old_name), m.open_set());
        let there = if from == to {
            Seq::<u64>::empty()
        } else {
            handles::live(m.handles_at(dst, new_name), m.open_set())
        };
        &&& self.handles() == m.handles().remove(from).insert(to, there + moved)
        &&& self == (Fat32SuperBlock { handle_registry: self.handle_registry, ..m })
    }

    /// From `m`, the directory whose first cluster is `fc`, if `moved`, has `parent` as its
    /// parent.
    pub open spec fn parent_fixed(self, m: Self, fc: u32, parent: u32, moved: bool) -> bool {
        &&& self.inv()
        &&& self.same_rest(m)
        &&& self.fat_cache == m.fat_cache
        &&& if moved {
            m.sound() ==> self.cluster_set(
                m,
                fc as int,
                Self::with_parent(m.data(fc as int), parent),
            )
        } else {
            self == m
        }
    }

    /// From `q`, the file that stood in the way, whose first cluster was `fc`, is gone.
    /// Handles that were open on it have lost their name and that chain.
    pub open spec fn overwritten(
        self,
        q: Self,
        h: Self,
        m: Self,
        clus: u32,
        name: Seq<char>,
        fc: u32,
    ) -> bool {
        &&& h.orphaned(q, clus, name, fc)
        &&& m.name_removed(h, clus, name)
        &&& m.written_back()
        &&& self.chain_released(m, fc)
        &&& self.same_places(m)
        &&& self.written_back()
    }

    /// Removes a file that stands in the way.
    fn overwrite(&mut self, clus: u32, name: &str, fc: u32) -> (r: Result<(), VfsError>)
        requires
            old(self).inv(),
        ensures
            final(self).inv(),
            final(self).bpb == old(self).bpb,
            match r {
                Ok(_) => exists|h: Self, m: Self| #[trigger]
                    final(self).overwritten(*old(self), h, m, clus, name@, fc),
                Err(VfsError::NotFound) => old(self).lacks(clus, name@) && exists|h: Self|
                    #[trigger] h.orphaned(*old(self), clus, name@, fc) && final(self).quiet(h),
                Err(e) => e == VfsError::IOError && (old(self).has_chain(clus as int)
                    && old(self).has_walk(fc) ==> final(self).faults() > old(self).faults()),
            },
            old(self).faults() <= final(self).faults(),
            forall|kept: u32| #[trigger]
                old(self).spares(kept, clus, fc) ==> final(self).keeps_dir(*old(self), kept),
    {
        let ghost q = *self;
        let _ = self.orphan_handles(clus, name, fc);
        let ghost h = *self;
        proof {
            h.lemma_walk_handles(q, fc);
            h.lemma_same_source(q);
        }
        let dropped = self.drop_name(clus, name);
        let ghost m = *self;
        proof {
            assert forall|kept: u32| #[trigger] q.spares(kept, clus, fc) implies m.keeps_dir(
                q,
                kept,
            ) && m.same_table(q) by {
                lemma_dropped_beside(q, h, m, clus, fc, kept);
            }
        }
        match dropped {
            Ok(_) => {},
            Err(e) => {
                proof {
                    if e == VfsError::NotFound {
                        h.lemma_lacks_same(q, clus, name@);
                    }
                }
                return Err(e);
            },
        }
        proof {
            m.lemma_walk_beside(h, clus, name@, fc);
        }
        let released = self.release_chain(fc);
        proof {
            let f = *self;
            assert forall|kept: u32| #[trigger] q.spares(kept, clus, fc) implies f.keeps_dir(
                q,
                kept,
            ) by {
                lemma_released_beside(q, m, f, clus, fc, kept);
            }
        }
        match released {
            Ok(_) => {},
            Err(e) => return Err(e),
        }
        assert(self.overwritten(q, h, m, clus, name@, fc));
        Ok(())
    }

    /// Removes the file, if any, that stands in the way of a name in a directory that
    /// lists `slots`. Tells whether there was one.
    fn make_way(&mut self, clus: u32, slots: &Vec<DirEntrySlot>, name: &str) -> (r: Result<
        bool,
        VfsError,
    >)
        requires
            old(self).inv(),
        ensures
            final(self).inv(),
            final(self).bpb == old(self).bpb,
            match r {
                Ok(w) => made_way(*old(self), *final(self), dir::slot_views(slots@), clus, name@)
                    && w == (names::first_named(dir::slot_views(slots@), name@, 0) is Some),
                Err(VfsError::NotFound) => names::first_named(
                    dir::slot_views(slots@),
                    name@,
                    0,
                ) is Some && old(self).lacks(clus, name@) && left_unnamed(
                    *old(self),
                    *final(self),
                    dir::slot_views(slots@),
                    clus,
                    name@,
                ),
                Err(e) => e == VfsError::IOError && (old(self).has_chain(clus as int) && (
                names::first_named(dir::slot_views(slots@), name@, 0) matches Some(j)
                    ==> old(self).has_walk(
                    dirent::entry_cluster(dir::slot_views(slots@)[j].sfn) as u32,
                )) ==> final(self).faults() > old(self).faults()),
            },
            old(self).faults() <= final(self).faults(),
            forall|kept: u32| #[trigger]
                old(self).stands_aside(kept, clus, dir::slot_views(slots@), name@)
                    ==> final(self).keeps_dir(*old(self), kept),
    {
        match find_slot(slots, name) {
            Some(j) => {
                assert(dir::slot_views(slots@)[j as int].sfn == slots@[j as int].sfn_entry@);
                let existing: u32 = first_clus_from_entry(&slots[j].sfn_entry);
                assert forall|kept: u32| #[trigger]
                    self.stands_aside(kept, clus, dir::slot_views(slots@), name@) implies self.spares(
                    kept,
                    clus,
                    existing,
                ) by {}
                let r = self.overwrite(clus, name, existing);
                match r {
                    Ok(_) => Ok(true),
                    Err(e) => Err(e),
                }
            },
            None => {
                assert forall|kept: u32| #[trigger]
                    self.stands_aside(
                        kept,
                        clus,
                        dir::slot_views(slots@),
                        name@,
                    ) implies self.keeps_dir(*self, kept) by {}
                Ok(false)
            },
        }
    }

    /// Why a new name was refused.
    pub open spec fn refuses(
        clus: u32,
        files: Seq<dir::SlotView>,
        name: Seq<char>,
        except: Option<Seq<u8>>,
    ) -> bool {
        ||| names::no_short_name(name, names::short_names(files, except))
        ||| dirent::is_long_name(name, utf8::encode_utf8(name)) && dirent::lfn_slots(name)
            > MAX_LFN_ENTRIES
        ||| clus < 2
    }

    /// From `a`, the entries `es` of a file were added to a directory that listed `files`.
    pub open spec fn group_put(
        self,
        a: Self,
        clus: u32,
        files: Seq<dir::SlotView>,
        name: Seq<char>,
        except: Option<Seq<u8>>,
        sfn: Seq<u8>,
        es: Seq<Seq<u8>>,
        e: Seq<u8>,
    ) -> bool {
        &&& names::is_short_name(name, names::short_names(files, except), sfn)
        &&& names::is_group(
            es,
            name,
            sfn,
            e[11],
            names::kept_case(name),
            dirent::entry_cluster(e),
            dirent::entry_size(e),
        )
        &&& self.entries_put(a, clus, es)
    }

    /// Adds the file of `entry` to a directory, which lists `slots`, under a new name.
    fn put_group(
        &mut self,
        clus: u32,
        slots: &Vec<DirEntrySlot>,
        name: &str,
        except: Option<[u8; 11]>,
        entry: &[u8; 32],
    ) -> (r: Result<(), VfsError>)
        requires
            old(self).inv(),
            Fat32Inode::name_fits(name@, old(self).bpb.byts_per_clus as int),
        ensures
            final(self).inv(),
            final(self).same_but_alloc(*old(self)),
            match r {
                Ok(_) => exists|sfn: Seq<u8>, es: Seq<Seq<u8>>| #[trigger]
                    final(self).group_put(
                        *old(self),
                        clus,
                        dir::slot_views(slots@),
                        name@,
                        names::sfn_view(except),
                        sfn,
                        es,
                        entry@,
                    ),
                Err(VfsError::InvalidInput) => *final(self) == *old(self) && Self::refuses(
                    clus,
                    dir::slot_views(slots@),
                    name@,
                    names::sfn_view(except),
                ),
                Err(VfsError::NoSpace) => (old(self).sound() ==> old(self).short_of(1)) && (
                final(self).faults() == old(self).faults() ==> final(self).quiet(*old(self))),
                Err(e) => e == VfsError::IOError && (old(self).has_chain(clus as int)
                    ==> final(self).faults() > old(self).faults()),
            },
            forall|kept: u32| #[trigger]
                old(self).beside(kept, clus) ==> final(self).keeps_dir(*old(self), kept),
    {
        let ghost a = *self;
        assert forall|kept: u32| #[trigger] a.beside(kept, clus) implies a.keeps_dir(a, kept) by {}
        let sfn: [u8; 11] = match choose_sfn(slots, name, except) {
            Ok(s) => s,
            Err(e) => return Err(e),
        };
        if needs_vfat(name) && lfn_slot_count(name) > MAX_LFN_ENTRIES {
            return Err(VfsError::InvalidInput);
        }
        let fc: u32 = first_clus_from_entry(entry);
        let sz: u32 = file_size_from_entry(entry);
        let group: Vec<[u8; 32]> = build_group(name, &sfn, entry[0x0B], keep_case(name), fc, sz);
        assert(32 * group@.len() <= self.bpb.byts_per_clus) by {
            if !dirent::is_long_name(name@, utf8::encode_utf8(name@)) {
                assert(group@.len() == 1);
            }
        }
        let put = self.write_dir_entries(clus, &group);
        proof {
            assert forall|kept: u32| #[trigger] a.beside(kept, clus) implies self.keeps_dir(
                a,
                kept,
            ) by {
                lemma_put_beside(a, *self, clus, kept);
            }
        }
        match put {
            Ok(_) => {},
            Err(e) => return Err(e),
        }
        proof {
            let es = dirent::entry_views(group@);
            assert(self.entries_put(a, clus, es));
            assert(self.group_put(
                a,
                clus,
                dir::slot_views(slots@),
                name@,
                names::sfn_view(except),
                sfn@,
                es,
                entry@,
            ));
        }
        Ok(())
    }
}

impl<D: BlockDevice> Fat32SuperBlock<D> {
    /// No link from `fc` on leads into the directory whose first cluster is `clus`.
    pub open spec fn apart(self, clus: u32, fc: u32) -> bool {
        forall|d: Seq<u32>, w: Seq<u32>|
            #![trigger self.is_file_chain(clus as int, d), self.is_walk(fc as int, w)]
            self.is_file_chain(clus as int, d) && self.is_walk(fc as int, w) ==> inode::disjoint(
                d,
                w,
            )
    }

    /// Following links from `fc` on comes to an end, and does not lead into the directory
    /// whose first cluster is `clus`.
    pub open spec fn may_free(self, clus: u32, fc: u32) -> bool {
        self.has_walk(fc) && self.apart(clus, fc)
    }

    /// The directory whose first cluster is `clus` has the clusters that it had in `o`, and
    /// they hold what they held.
    pub open spec fn keeps_dir(self, o: Self, clus: u32) -> bool {
        &&& self.sound()
        &&& self.bpb == o.bpb
        &&& forall|d: Seq<u32>| #[trigger]
            o.is_file_chain(clus as int, d) ==> self.is_file_chain(clus as int, d) && forall|k: int|
                0 <= k < d.len() ==> self.data(#[trigger] d[k] as int) == o.data(d[k] as int)
    }

    /// Two directories are chains that share no cluster.
    pub open spec fn beside(self, kept: u32, clus: u32) -> bool {
        &&& self.tracked_ok()
        &&& self.has_chain(clus as int)
        &&& self.has_chain(kept as int)
        &&& forall|d: Seq<u32>, w: Seq<u32>|
            #![trigger self.is_file_chain(kept as int, d), self.is_file_chain(clus as int, w)]
            self.is_file_chain(kept as int, d) && self.is_file_chain(clus as int, w)
                ==> inode::disjoint(d, w)
    }

    /// What is done to the directory whose first cluster is `clus`, and to the clusters from
    /// `fc` on, does not concern the directory whose first cluster is `kept`.
    pub open spec fn spares(self, kept: u32, clus: u32, fc: u32) -> bool {
        self.beside(kept, clus) && self.may_free(kept, fc)
    }

    /// Putting a name into the directory whose first cluster is `clus` and which lists
    /// `files` does not concern the directory whose first cluster is `kept`.
    pub open spec fn stands_aside(
        self,
        kept: u32,
        clus: u32,
        files: Seq<dir::SlotView>,
        name: Seq<char>,
    ) -> bool {
        &&& self.beside(kept, clus)
        &&& names::first_named(files, name, 0) matches Some(j) ==> {
            let fc = dirent::entry_cluster(files[j].sfn) as u32;
            self.may_free(kept, fc) && self.may_free(clus, fc)
        }
    }

    /// In a volume that is the same, a directory is.
    pub proof fn lemma_keeps_quiet(self, o: Self, clus: u32)
        requires
            o.sound(),
            self.quiet(o),
        ensures
            self.keeps_dir(o, clus),
    {
        assert forall|d: Seq<u32>| #[trigger]
            o.is_file_chain(clus as int, d) implies self.is_file_chain(clus as int, d) && forall|
            k: int,
        |
            0 <= k < d.len() ==> self.data(#[trigger] d[k] as int) == o.data(d[k] as int) by {
            crate::fat32::file_write::lemma_chain_same(o, self, clus as int, d);
            assert forall|k: int| 0 <= k < d.len() implies self.data(#[trigger] d[k] as int)
                == o.data(d[k] as int) by {
                self.lemma_data_same(o, d[k] as int);
            }
        }
    }

    /// A directory that two steps keep is kept by both together.
    pub proof fn lemma_keeps_trans(self, m: Self, o: Self, clus: u32)
        requires
            m.keeps_dir(o, clus),
            self.keeps_dir(m, clus),
        ensures
            self.keeps_dir(o, clus),
    {
        assert forall|d: Seq<u32>| #[trigger]
            o.is_file_chain(clus as int, d) implies self.is_file_chain(clus as int, d) && forall|
            k: int,
        |
            0 <= k < d.len() ==> self.data(#[trigger] d[k] as int) == o.data(d[k] as int) by {
            assert(m.is_file_chain(clus as int, d));
            assert forall|k: int| 0 <= k < d.len() implies self.data(#[trigger] d[k] as int)
                == o.data(d[k] as int) by {
                assert(m.data(d[k] as int) == o.data(d[k] as int));
            }
        }
    }

    /// Brings the file of `entry` into a directory, which lists `slots`, under a new name. A
    /// file that stands in the way is removed first; whether one was is told besides.
    fn bring_in(
        &mut self,
        clus: u32,
        slots: &Vec<DirEntrySlot>,
        name: &str,
        except: Option<[u8; 11]>,
        entry: &[u8; 32],
    ) -> (r: (bool, Result<(), VfsError>))
        requires
            old(self).inv(),
            Fat32Inode::name_fits(name@, old(self).bpb.byts_per_clus as int),
        ensures
            final(self).inv(),
            final(self).bpb == old(self).bpb,
            old(self).faults() <= final(self).faults(),
            r.0 ==> names::first_named(dir::slot_views(slots@), name@, 0) is Some,
            brought(
                *old(self),
                *final(self),
                clus,
                dir::slot_views(slots@),
                name@,
                names::sfn_view(except),
                entry@,
                r.0,
                r.1,
            ),
            forall|kept: u32| #[trigger]
                old(self).stands_aside(kept, clus, dir::slot_views(slots@), name@)
                    ==> final(self).keeps_dir(*old(self), kept),
    {
        let ghost q = *self;
        let ghost files = dir::slot_views(slots@);
        let way = self.make_way(clus, slots, name);
        let ghost a = *self;
        let w: bool = match way {
            Ok(w) => w,
            Err(e) => return (false, Err(e)),
        };
        proof {
            lemma_ready(q, a, files, clus, name@);
        }
        let put = self.put_group(clus, slots, name, except, entry);
        proof {
            let f = *self;
            assert forall|kept: u32| #[trigger]
                q.stands_aside(kept, clus, files, name@) implies f.keeps_dir(q, kept) by {
                lemma_aside_after(q, a, files, clus, name@, kept);
                f.lemma_keeps_trans(a, q, kept);
            }
        }
        (w, put)
    }
}

/// What bringing a file into a directory comes to: from `q` to `f`, with the result `r`;
/// `w` tells whether way was made for the name.
pub open spec fn brought<D: BlockDevice>(
    q: Fat32SuperBlock<D>,
    f: Fat32SuperBlock<D>,
    clus: u32,
    files: Seq<dir::SlotView>,
    name: Seq<char>,
    except: Option<Seq<u8>>,
    e: Seq<u8>,
    w: bool,
    r: Result<(), VfsError>,
) -> bool {
    let named = names::first_named(files, name, 0) is Some;
    match r {
        Ok(_) => w == named && exists|a: Fat32SuperBlock<D>, sfn: Seq<u8>, es: Seq<Seq<u8>>|
            #[trigger] f.group_put(a, clus, files, name, except, sfn, es, e) && made_way(
                q,
                a,
                files,
                clus,
                name,
            ),
        Err(VfsError::NotFound) => !w && named && q.lacks(clus, name) && left_unnamed(
            q,
            f,
            files,
            clus,
            name,
        ),
        Err(VfsError::InvalidInput) => w == named && made_way(q, f, files, clus, name)
            && Fat32SuperBlock::<D>::refuses(clus, files, name, except),
        Err(VfsError::NoSpace) => w == named && exists|a: Fat32SuperBlock<D>|
            #[trigger] made_way(q, a, files, clus, name) && lacked_room(a, f),
        Err(x) => x == VfsError::IOError && (q.tracked_ok() && q.has_chain(clus as int) && (
        names::first_named(files, name, 0) matches Some(j) ==> q.may_free(
            clus,
            dirent::entry_cluster(files[j].sfn) as u32,
        )) ==> f.faults() > q.faults()),
    }
}

/// From `a` to `f`, there was no room for a file, and nothing was changed on that account.
pub open spec fn lacked_room<D: BlockDevice>(
    a: Fat32SuperBlock<D>,
    f: Fat32SuperBlock<D>,
) -> bool {
    &&& a.sound() ==> a.short_of(1)
    &&& f.faults() == a.faults() ==> f.quiet(a)
}

/// From `q` to `f`, the handles on a name that is listed were marked, and nothing else was
/// changed: the directory turned out to have no entry with the name.
pub open spec fn left_unnamed<D: BlockDevice>(
    q: Fat32SuperBlock<D>,
    f: Fat32SuperBlock<D>,
    files: Seq<dir::SlotView>,
    clus: u32,
    name: Seq<char>,
) -> bool {
    &&& names::first_named(files, name, 0) matches Some(j)
    &&& exists|h: Fat32SuperBlock<D>, fc: u32|
        #[trigger] h.orphaned(q, clus, name, fc) && fc == dirent::entry_cluster(files[j].sfn)
            && f.quiet(h)
}

/// When way was made, the directory is still a chain, if the file in the way was apart.
proof fn lemma_ready<D: BlockDevice>(
    q: Fat32SuperBlock<D>,
    a: Fat32SuperBlock<D>,
    files: Seq<dir::SlotView>,
    clus: u32,
    name: Seq<char>,
)
    requires
        made_way(q, a, files, clus, name),
    ensures
        q.tracked_ok() && q.has_chain(clus as int) && (names::first_named(
            files,
            name,
            0,
        ) matches Some(j) ==> q.may_free(clus, dirent::entry_cluster(files[j].sfn) as u32))
            ==> a.tracked_ok() && a.has_chain(clus as int),
{
    if q.tracked_ok() && q.has_chain(clus as int) && (names::first_named(
        files,
        name,
        0,
    ) matches Some(j) ==> q.may_free(clus, dirent::entry_cluster(files[j].sfn) as u32)) {
        lemma_way_made(q, a, files, clus, name, clus);
    }
}

/// When way was made, directories that shared no cluster share none.
proof fn lemma_aside_after<D: BlockDevice>(
    q: Fat32SuperBlock<D>,
    a: Fat32SuperBlock<D>,
    files: Seq<dir::SlotView>,
    clus: u32,
    name: Seq<char>,
    kept: u32,
)
    requires
        made_way(q, a, files, clus, name),
        q.stands_aside(kept, clus, files, name),
    ensures
        a.beside(kept, clus),
{
    lemma_way_made(q, a, files, clus, name, clus);
    lemma_way_made(q, a, files, clus, name, kept);
    let d0 = choose|d: Seq<u32>| #[trigger] q.is_file_chain(kept as int, d);
    let w0 = choose|w: Seq<u32>| #[trigger] q.is_file_chain(clus as int, w);
    assert forall|d: Seq<u32>, w: Seq<u32>|
        #![trigger a.is_file_chain(kept as int, d), a.is_file_chain(clus as int, w)]
        a.is_file_chain(kept as int, d) && a.is_file_chain(clus as int, w) implies inode::disjoint(
        d,
        w,
    ) by {
        a.lemma_chain_unique(kept as int, d, d0);
        a.lemma_chain_unique(clus as int, w, w0);
    }
}

/// Removing a name from a directory keeps a directory beside it.
proof fn lemma_dropped_beside<D: BlockDevice>(
    q: Fat32SuperBlock<D>,
    h: Fat32SuperBlock<D>,
    m: Fat32SuperBlock<D>,
    clus: u32,
    fc: u32,
    kept: u32,
)
    requires
        q.spares(kept, clus, fc),
        h == (Fat32SuperBlock {
            unlinked_handles: h.unlinked_handles,
            handle_registry: h.handle_registry,
            ..q
        }),
        forall|x: int| #[trigger] h.entry(x) == q.entry(x),
        forall|d: Seq<u32>| #[trigger]
            h.is_file_chain(clus as int, d) && h.sound() ==> m.touched_within(h, d),
    ensures
        m.keeps_dir(q, kept),
        m.same_table(q),
{
    let w = choose|w: Seq<u32>| #[trigger] q.is_file_chain(clus as int, w);
    crate::fat32::file_write::lemma_chain_same(q, h, clus as int, w);
    assert(m.touched_within(h, w));
    assert forall|x: int| q.has_entry(x) implies #[trigger] m.entry(x) == q.entry(x) by {
        assert(h.has_entry(x));
        assert(m.entry(x) == h.entry(x));
    }
    assert forall|d: Seq<u32>| #[trigger]
        q.is_file_chain(kept as int, d) implies m.is_file_chain(kept as int, d) && forall|k: int|
        0 <= k < d.len() ==> m.data(#[trigger] d[k] as int) == q.data(d[k] as int) by {
        crate::fat32::file_write::lemma_chain_same(q, m, kept as int, d);
        assert(inode::disjoint(d, w));
        assert forall|k: int| 0 <= k < d.len() implies m.data(#[trigger] d[k] as int) == q.data(
            d[k] as int,
        ) by {
            assert(q.is_cluster(d[k] as int));
            lemma_not_among(d, w, k);
            assert(m.data(d[k] as int) == h.data(d[k] as int));
            assert(h.data(d[k] as int) == q.data(d[k] as int));
        }
    }
}

/// A cluster of one of two lists that share none is not among the other.
proof fn lemma_not_among(d: Seq<u32>, w: Seq<u32>, k: int)
    requires
        inode::disjoint(d, w),
        0 <= k < d.len(),
    ensures
        !crate::fat32::allocator::among(w, w.len() as int, d[k] as int),
{
    if crate::fat32::allocator::among(w, w.len() as int, d[k] as int) {
        let i = choose|i: int| 0 <= i < w.len() && #[trigger] w[i] == d[k] as int;
        assert(d[k] != w[i]);
    }
}

/// Freeing clusters keeps a directory that is apart from them.
proof fn lemma_released_beside<D: BlockDevice>(
    q: Fat32SuperBlock<D>,
    m: Fat32SuperBlock<D>,
    f: Fat32SuperBlock<D>,
    clus: u32,
    fc: u32,
    kept: u32,
)
    requires
        q.spares(kept, clus, fc),
        m.keeps_dir(q, kept),
        m.same_table(q),
        f.same_places(m),
        forall|w: Seq<u32>| #[trigger]
            m.is_walk(fc as int, w) && m.sound() ==> f.sound() && f.same_data(m)
                && f.entries_kept(m, w),
    ensures
        f.keeps_dir(q, kept),
{
    let w = if 2 <= fc < EOC_MARKER {
        choose|w: Seq<u32>| #[trigger] q.is_walk(fc as int, w)
    } else {
        Seq::empty()
    };
    assert(q.is_walk(fc as int, w));
    m.lemma_walk_same(q, fc as int, w);
    assert forall|d: Seq<u32>| #[trigger]
        m.is_file_chain(kept as int, d) implies f.is_file_chain(kept as int, d) && forall|k: int|
        0 <= k < d.len() ==> f.data(#[trigger] d[k] as int) == m.data(d[k] as int) by {
        let d0 = choose|d: Seq<u32>| #[trigger] q.is_file_chain(kept as int, d);
        m.lemma_chain_unique(kept as int, d, d0);
        assert(inode::disjoint(d, w));
        assert forall|k: int| 0 <= k < d.len() implies f.entry(#[trigger] d[k] as int) == m.entry(
            d[k] as int,
        ) && f.data(d[k] as int) == m.data(d[k] as int) by {
            assert(m.is_cluster(d[k] as int));
            assert(m.has_entry(d[k] as int));
            lemma_not_among(d, w, k);
            f.lemma_data_same(m, d[k] as int);
        }
        crate::fat32::grow::lemma_chain_kept(m, f, kept as int, d);
    }
    f.lemma_keeps_trans(m, q, kept);
}

/// Adding entries to a directory keeps a directory beside it.
proof fn lemma_put_beside<D: BlockDevice>(
    a: Fat32SuperBlock<D>,
    f: Fat32SuperBlock<D>,
    clus: u32,
    kept: u32,
)
    requires
        a.beside(kept, clus),
        forall|w: Seq<u32>| #[trigger]
            a.is_file_chain(clus as int, w) && a.tracked_ok() ==> f.in_use_but(a, w),
    ensures
        f.keeps_dir(a, kept),
{
    let w = choose|w: Seq<u32>| #[trigger] a.is_file_chain(clus as int, w);
    assert(f.in_use_but(a, w));
    assert forall|d: Seq<u32>| #[trigger]
        a.is_file_chain(kept as int, d) implies f.is_file_chain(kept as int, d) && forall|k: int|
        0 <= k < d.len() ==> f.data(#[trigger] d[k] as int) == a.data(d[k] as int) by {
        assert(inode::disjoint(d, w));
        assert forall|k: int| 0 <= k < d.len() implies f.entry(#[trigger] d[k] as int) == a.entry(
            d[k] as int,
        ) && f.data(d[k] as int) == a.data(d[k] as int) by {
            assert(a.is_cluster(d[k] as int));
            assert(a.has_entry(d[k] as int));
            crate::fat32::grow::lemma_chain_taken(a, kept as int, d, k);
            lemma_not_among(d, w, k);
        }
        crate::fat32::grow::lemma_chain_kept(a, f, kept as int, d);
    }
}

/// A directory that was kept lists what it listed, and has its names where it had them.
pub proof fn law_kept_directory_lists_the_same<D: BlockDevice>(
    o: Fat32SuperBlock<D>,
    f: Fat32SuperBlock<D>,
    clus: u32,
    d: Seq<u32>,
    name: Seq<char>,
)
    requires
        f.keeps_dir(o, clus),
        o.is_file_chain(clus as int, d),
    ensures
        f.is_file_chain(clus as int, d),
        f.listing(d) == o.listing(d),
        f.locate(d, 0, name) == o.locate(d, 0, name),
{
    assert(f.is_file_chain(clus as int, d));
    f.lemma_locate_same(o, d, 0, name);
    let n = d.len() * o.bpb.byts_per_clus;
    assert(f.chain_bytes(d) =~= o.chain_bytes(d)) by {
        assert forall|i: int| 0 <= i < n implies #[trigger] f.chain_bytes(d)[i] == o.chain_bytes(
            d,
        )[i] by {
            o.lemma_chain_pos(d, i);
            let k = i / (o.bpb.byts_per_clus as int);
            assert(f.data(d[k] as int) == o.data(d[k] as int));
        }
    }
}

/// A directory, by its entry `e`, that has a parent to lead to.
pub open spec fn has_parent_entry(e: Seq<u8>, root: u32) -> bool {
    &&& dir::is_directory(e[11])
    &&& 2 <= dirent::entry_cluster(e) < EOC_MARKER
    &&& dirent::entry_cluster(e) != root
}

fn needs_parent(entry: &[u8; 32], root: u32) -> (r: bool)
    ensures
        r == has_parent_entry(entry@, root),
{
    let fc: u32 = first_clus_from_entry(entry);
    entry[0x0B] / 16 % 2 == 1 && fc >= 2 && fc < EOC_MARKER && fc != root
}

/// The way is free for the new name: nothing stood there, or it was overwritten.
pub open spec fn made_way<D: BlockDevice>(
    q: Fat32SuperBlock<D>,
    a: Fat32SuperBlock<D>,
    files: Seq<dir::SlotView>,
    clus: u32,
    name: Seq<char>,
) -> bool {
    match names::first_named(files, name, 0) {
        Some(j) => exists|h: Fat32SuperBlock<D>, m: Fat32SuperBlock<D>, fc: u32|
            #[trigger] a.overwritten(q, h, m, clus, name, fc) && fc == dirent::entry_cluster(
                files[j].sfn,
            ),
        None => a == q,
    }
}

/// From `q` to `f`, the file of the entry `e` was renamed within the directory whose
/// first cluster is `clus` and which listed `files`: the way was made free, the file was
/// added under its new name, the old name was removed, the handles on it were moved, and
/// a directory was told its parent.
pub open spec fn renamed<D: BlockDevice>(
    q: Fat32SuperBlock<D>,
    a: Fat32SuperBlock<D>,
    b: Fat32SuperBlock<D>,
    c: Fat32SuperBlock<D>,
    h: Fat32SuperBlock<D>,
    f: Fat32SuperBlock<D>,
    clus: u32,
    files: Seq<dir::SlotView>,
    old_name: Seq<char>,
    new_name: Seq<char>,
    e: Seq<u8>,
    sfn: Seq<u8>,
    es: Seq<Seq<u8>>,
) -> bool {
    &&& made_way(q, a, files, clus, new_name)
    &&& b.group_put(a, clus, files, new_name, Some(e.take(11)), sfn, es, e)
    &&& c.name_removed(b, clus, old_name)
    &&& h.handles_moved(c, clus, old_name, clus, new_name)
    &&& if has_parent_entry(e, q.bpb.root_clus) {
        exists|k: Fat32SuperBlock<D>|
            #[trigger] k.quiet(h) && k.written_back() && f.parent_fixed(
                k,
                dirent::entry_cluster(e) as u32,
                clus,
                true,
            )
    } else {
        f == h
    }
}

/// From `q` to `f`, the file of the entry `e` was moved from the directory whose first
/// cluster is `src` to that whose first cluster is `dst` and which listed `files`.
pub open spec fn moved<D: BlockDevice>(
    q: Fat32SuperBlock<D>,
    a: Fat32SuperBlock<D>,
    b: Fat32SuperBlock<D>,
    c: Fat32SuperBlock<D>,
    p: Fat32SuperBlock<D>,
    f: Fat32SuperBlock<D>,
    src: u32,
    dst: u32,
    files: Seq<dir::SlotView>,
    old_name: Seq<char>,
    new_name: Seq<char>,
    e: Seq<u8>,
    sfn: Seq<u8>,
    es: Seq<Seq<u8>>,
) -> bool {
    &&& made_way(q, a, files, dst, new_name)
    &&& b.group_put(a, dst, files, new_name, None, sfn, es, e)
    &&& c.name_removed(b, src, old_name)
    &&& c.written_back()
    &&& p.parent_fixed(
        c,
        dirent::entry_cluster(e) as u32,
        dst,
        has_parent_entry(e, q.bpb.root_clus),
    )
    &&& f.handles_moved(p, src, old_name, dst, new_name)
}

/// How many files stand in the way of a name, where there is one at most.
pub open spec fn way_made(files: Seq<dir::SlotView>, name: Seq<char>) -> u64 {
    if names::first_named(files, name, 0) is Some {
        1
    } else {
        0
    }
}

/// The short name that does not count as given: that of the entry, with `own`.
pub open spec fn short_but(own: bool, e: Seq<u8>) -> Option<Seq<u8>> {
    if own {
        Some(e.take(11))
    } else {
        None
    }
}

/// From `q` to `f`, a file was put under its new name into the directory whose first cluster
/// is `dst` and which listed `files`; then the directory whose first cluster is `src` turned
/// out to have no entry with the old name, and nothing else was changed. With `own`, the
/// file's own short name did not count as given.
pub open spec fn put_in_vain<D: BlockDevice>(
    q: Fat32SuperBlock<D>,
    f: Fat32SuperBlock<D>,
    src: u32,
    old_name: Seq<char>,
    dst: u32,
    files: Seq<dir::SlotView>,
    new_name: Seq<char>,
    own: bool,
) -> bool {
    exists|
        a: Fat32SuperBlock<D>,
        b: Fat32SuperBlock<D>,
        e: Seq<u8>,
        sfn: Seq<u8>,
        es: Seq<Seq<u8>>,
    |
        #[trigger] b.group_put(
            a,
            dst,
            files,
            new_name,
            short_but(own, e),
            sfn,
            es,
            e,
        ) && made_way(q, a, files, dst, new_name) && b.lacks(src, old_name) && f.quiet(b)
}

/// From `b` to `f`, the file of the entry `e` left the directory whose first cluster is
/// `src`: its old name was removed, a directory was told its new parent, and the handles on
/// it were moved.
pub open spec fn carried_off<D: BlockDevice>(
    b: Fat32SuperBlock<D>,
    c: Fat32SuperBlock<D>,
    p: Fat32SuperBlock<D>,
    f: Fat32SuperBlock<D>,
    src: u32,
    old_name: Seq<char>,
    dst: u32,
    new_name: Seq<char>,
    e: Seq<u8>,
) -> bool {
    &&& c.name_removed(b, src, old_name)
    &&& c.written_back()
    &&& p.parent_fixed(
        c,
        dirent::entry_cluster(e) as u32,
        dst,
        has_parent_entry(e, b.bpb.root_clus),
    )
    &&& f.handles_moved(p, src, old_name, dst, new_name)
}

impl<D: BlockDevice> Fat32SuperBlock<D> {
    /// Takes the file of `entry`, which stands in the directory whose first cluster is `dst`
    /// by now, out of the one whose first cluster is `src`. Whether the old name was removed
    /// is told besides.
    fn carry_off(
        &mut self,
        src: u32,
        dst: u32,
        old_name: &str,
        new_name: &str,
        entry: &[u8; 32],
    ) -> (r: (bool, Result<(), VfsError>))
        requires
            old(self).inv(),
        ensures
            final(self).inv(),
            old(self).faults() <= final(self).faults(),
            r.1 is Ok ==> final(self).written_back(),
            match r.1 {
                Ok(_) => r.0 && exists|c: Self, p: Self| #[trigger]
                    carried_off(
                        *old(self),
                        c,
                        p,
                        *final(self),
                        src,
                        old_name@,
                        dst,
                        new_name@,
                        entry@,
                    ),
                Err(VfsError::NotFound) => !r.0 && old(self).lacks(src, old_name@)
                    && final(self).quiet(*old(self)),
                Err(e) => e == VfsError::IOError && (old(self).has_chain(src as int)
                    ==> final(self).faults() > old(self).faults()),
            },
    {
        let ghost b = *self;
        match self.drop_name(src, old_name) {
            Ok(_) => {},
            Err(e) => return (false, Err(e)),
        }
        let ghost c = *self;
        if needs_parent(entry, self.bpb.root_clus) {
            let fc: u32 = first_clus_from_entry(entry);
            match self.set_parent(fc, dst) {
                Ok(_) => {},
                Err(e) => return (true, Err(e)),
            }
        }
        let ghost p = *self;
        self.move_handles(src, old_name, dst, new_name);
        assert(carried_off(b, c, p, *self, src, old_name@, dst, new_name@, entry@));
        (true, Ok(()))
    }
}

/// A file that is listed is not missing.
proof fn lemma_not_lacking<D: BlockDevice>(
    n: Fat32Inode,
    o: Fat32SuperBlock<D>,
    files: Seq<dir::SlotView>,
    name: Seq<char>,
    e: Seq<u8>,
)
    requires
        n.lists_as(o, files),
        entry_named(files, name, e),
    ensures
        !n.lacks_name(o, name),
{
    if n.lacks_name(o, name) {
        let d = choose|d: Seq<u32>| #[trigger]
            n.lists(o, d) && names::first_named(o.listing(d), name, 0) is None;
        assert(o.listing(d) == files);
    }
}

/// What a directory lists in a volume that is the same, it lists.
proof fn lemma_listed_after<D: BlockDevice>(
    n: Fat32Inode,
    o: Fat32SuperBlock<D>,
    q: Fat32SuperBlock<D>,
    files: Seq<dir::SlotView>,
)
    requires
        q.quiet(o),
        n.lists_as(q, files),
    ensures
        n.lists_as(o, files),
{
    assert forall|d: Seq<u32>| #[trigger] n.lists(o, d) implies o.listing(d) == files by {
        q.lemma_quiet_listing(o, d);
        crate::fat32::file_write::lemma_chain_same(o, q, n.first_clus as int, d);
        assert(n.lists(q, d));
    }
}

/// A directory from which a file is moved stands aside while the file is brought in.
proof fn lemma_aside<D: BlockDevice>(
    n: Fat32Inode,
    m: Fat32Inode,
    o: Fat32SuperBlock<D>,
    q: Fat32SuperBlock<D>,
    files: Seq<dir::SlotView>,
    name: Seq<char>,
)
    requires
        o.tracked_ok(),
        q.quiet(o),
        n.may_hand_over(o, m, name),
        n.first_clus != m.first_clus,
        q.has_chain(n.first_clus as int),
        q.has_chain(m.first_clus as int),
        q.tracked_ok(),
        names::first_named(files, name, 0) matches Some(j) ==> q.may_free(
            n.first_clus,
            dirent::entry_cluster(files[j].sfn) as u32,
        ) && q.may_free(m.first_clus, dirent::entry_cluster(files[j].sfn) as u32),
    ensures
        q.stands_aside(n.first_clus, m.first_clus, files, name),
{
    let (src, dst) = (n.first_clus, m.first_clus);
    let d0 = choose|d: Seq<u32>| #[trigger] o.is_file_chain(src as int, d);
    let w0 = choose|w: Seq<u32>| #[trigger] o.is_file_chain(dst as int, w);
    crate::fat32::file_write::lemma_chain_same(o, q, src as int, d0);
    crate::fat32::file_write::lemma_chain_same(o, q, dst as int, w0);
    o.lemma_chain_is_walk(dst as int, w0);
    assert forall|d: Seq<u32>, w: Seq<u32>|
        #![trigger q.is_file_chain(src as int, d), q.is_file_chain(dst as int, w)]
        q.is_file_chain(src as int, d) && q.is_file_chain(dst as int, w) implies inode::disjoint(
        d,
        w,
    ) by {
        q.lemma_chain_unique(src as int, d, d0);
        q.lemma_chain_unique(dst as int, w, w0);
    }
}

/// The first of `files` that has the name has the entry `e`.
pub open spec fn entry_named(files: Seq<dir::SlotView>, name: Seq<char>, e: Seq<u8>) -> bool {
    names::first_named(files, name, 0) matches Some(k) && files[k].sfn == e
}

impl<D: BlockDevice> Fat32SuperBlock<D> {
    /// No cluster of the directory whose first cluster is `clus` has an entry with the
    /// name.
    pub open spec fn lacks(self, clus: u32, name: Seq<char>) -> bool {
        forall|d: Seq<u32>| #[trigger]
            self.is_file_chain(clus as int, d) && self.sound() ==> self.locate(d, 0, name) is None
    }

    /// Handles have no part in what a directory holds.
    proof fn lemma_lacks_same(self, q: Self, clus: u32, name: Seq<char>)
        requires
            self.lacks(clus, name),
            q.inv(),
            self == (Fat32SuperBlock {
                unlinked_handles: self.unlinked_handles,
                handle_registry: self.handle_registry,
                ..q
            }),
        ensures
            q.lacks(clus, name),
    {
        self.lemma_same_source(q);
        assert forall|d: Seq<u32>| #[trigger]
            q.is_file_chain(clus as int, d) && q.sound() implies q.locate(d, 0, name) is None by {
            crate::fat32::file_write::lemma_chain_same(q, self, clus as int, d);
            self.lemma_locate_same(q, d, 0, name);
            assert(self.is_file_chain(clus as int, d));
        }
    }

    proof fn lemma_lacks_from(self, o: Self, clus: u32, name: Seq<char>)
        requires
            self.lacks(clus, name),
            self.quiet(o),
        ensures
            o.lacks(clus, name),
    {
        assert forall|d: Seq<u32>| #[trigger]
            o.is_file_chain(clus as int, d) && o.sound() implies o.locate(d, 0, name) is None by {
            crate::fat32::file_write::lemma_chain_same(o, self, clus as int, d);
            self.lemma_quiet_locate(o, d, name);
        }
    }
}

impl Fat32Inode {
    /// The directory lists `files`.
    pub open spec fn lists_as<D: BlockDevice>(
        self,
        o: Fat32SuperBlock<D>,
        files: Seq<dir::SlotView>,
    ) -> bool {
        forall|d: Seq<u32>| #[trigger] self.lists(o, d) ==> o.listing(d) == files
    }

    /// The directory is listed without the name.
    pub open spec fn lacks_name<D: BlockDevice>(
        self,
        o: Fat32SuperBlock<D>,
        name: Seq<char>,
    ) -> bool {
        exists|d: Seq<u32>| #[trigger]
            self.lists(o, d) && names::first_named(o.listing(d), name, 0) is None
    }

    /// A file that the directory lists under the name can be freed without harm to the
    /// directory whose first cluster is `clus`.
    pub open spec fn way_clear<D: BlockDevice>(
        self,
        o: Fat32SuperBlock<D>,
        name: Seq<char>,
        clus: u32,
    ) -> bool {
        forall|files: Seq<dir::SlotView>| #[trigger]
            self.lists_as(o, files) ==> (names::first_named(files, name, 0) matches Some(j)
                ==> o.may_free(clus, dirent::entry_cluster(files[j].sfn) as u32))
    }

    /// What is remembered of the listing was discarded `n` times.
    pub open spec fn changed_times(self, o: Self, n: u64) -> bool {
        self == (Fat32Inode {
            dir_cache: self.dir_cache,
            dir_generation: o.dir_generation.wrapping_add(n),
            ..o
        })
    }

    /// Both directories are chains that share no cluster, unless they are one, and a file
    /// that has the name in `other` can be freed without harm to either.
    pub open spec fn may_hand_over<D: BlockDevice>(
        self,
        o: Fat32SuperBlock<D>,
        other: Fat32Inode,
        name: Seq<char>,
    ) -> bool {
        &&& o.has_chain(self.first_clus as int)
        &&& o.has_chain(other.first_clus as int)
        &&& other.way_clear(o, name, self.first_clus)
        &&& other.way_clear(o, name, other.first_clus)
        &&& self.first_clus == other.first_clus || o.apart(self.first_clus, other.first_clus)
    }

    /// What moving a file from this directory to `other` comes to: `n` and `m` are the two
    /// directories afterwards, `o` and `f` the volume before and after, and `r` the result.
    pub open spec fn handed_over<D: BlockDevice>(
        self,
        other: Fat32Inode,
        n: Fat32Inode,
        m: Fat32Inode,
        o: Fat32SuperBlock<D>,
        f: Fat32SuperBlock<D>,
        old_name: Seq<char>,
        new_name: Seq<char>,
        r: Result<(), VfsError>,
    ) -> bool {
        match r {
            Ok(_) => exists|
                q: Fat32SuperBlock<D>,
                a: Fat32SuperBlock<D>,
                b: Fat32SuperBlock<D>,
                c: Fat32SuperBlock<D>,
                p: Fat32SuperBlock<D>,
                src: Seq<dir::SlotView>,
                dst: Seq<dir::SlotView>,
                e: Seq<u8>,
                sfn: Seq<u8>,
                es: Seq<Seq<u8>>,
            |
                #[trigger] moved(
                    q,
                    a,
                    b,
                    c,
                    p,
                    f,
                    self.first_clus,
                    other.first_clus,
                    dst,
                    old_name,
                    new_name,
                    e,
                    sfn,
                    es,
                ) && q.quiet(o) && #[trigger] entry_named(src, old_name, e) && self.lists_as(o, src)
                    && other.lists_as(o, dst) && n.changed_times(self, 1) && m.changed_times(
                    other,
                    (way_made(dst, new_name) + 1) as u64,
                ),
            Err(VfsError::NotFound) => exists|
                q: Fat32SuperBlock<D>,
                src: Seq<dir::SlotView>,
                dst: Seq<dir::SlotView>,
            |
                #[trigger] q.quiet(o) && #[trigger] self.lists_as(o, src)
                    && #[trigger] other.lists_as(o, dst) && n.changed_times(self, 0) && {
                    ||| names::first_named(src, old_name, 0) is None && f == q && m == other
                    ||| o.lacks(other.first_clus, new_name) && left_unnamed(
                        q,
                        f,
                        dst,
                        other.first_clus,
                        new_name,
                    ) && m.changed_times(other, 0)
                    ||| put_in_vain(
                        q,
                        f,
                        self.first_clus,
                        old_name,
                        other.first_clus,
                        dst,
                        new_name,
                        false,
                    ) && m.changed_times(other, way_made(dst, new_name))
                },
            Err(VfsError::InvalidInput) => exists|
                q: Fat32SuperBlock<D>,
                dst: Seq<dir::SlotView>,
            |
                q.quiet(o) && other.lists_as(o, dst) && Fat32SuperBlock::<D>::refuses(
                    other.first_clus,
                    dst,
                    new_name,
                    None,
                ) && #[trigger] made_way(q, f, dst, other.first_clus, new_name)
                    && n.changed_times(self, 0) && m.changed_times(other, way_made(dst, new_name)),
            Err(VfsError::NoSpace) => exists|
                q: Fat32SuperBlock<D>,
                a: Fat32SuperBlock<D>,
                dst: Seq<dir::SlotView>,
            |
                q.quiet(o) && other.lists_as(o, dst) && #[trigger] made_way(
                    q,
                    a,
                    dst,
                    other.first_clus,
                    new_name,
                ) && lacked_room(a, f) && n.changed_times(self, 0) && m.changed_times(
                    other,
                    way_made(dst, new_name),
                ),
            Err(x) => x == VfsError::IOError && (o.tracked_ok() && self.may_hand_over(
                o,
                other,
                new_name,
            ) ==> f.faults() > o.faults()),
        }
    }

    /// From `o` to `f`, this directory is as it was; or there was a moment at which it was,
    /// and at which a file had been put into `other` under the name.
    pub open spec fn never_lost<D: BlockDevice>(
        self,
        other: Fat32Inode,
        o: Fat32SuperBlock<D>,
        f: Fat32SuperBlock<D>,
        new_name: Seq<char>,
    ) -> bool {
        ||| f.keeps_dir(o, self.first_clus)
        ||| exists|
            q: Fat32SuperBlock<D>,
            a: Fat32SuperBlock<D>,
            b: Fat32SuperBlock<D>,
            dst: Seq<dir::SlotView>,
            sfn: Seq<u8>,
            es: Seq<Seq<u8>>,
            e: Seq<u8>,
        |
            q.quiet(o) && other.lists_as(o, dst) && #[trigger] made_way(
                q,
                a,
                dst,
                other.first_clus,
                new_name,
            ) && #[trigger] b.group_put(
                a,
                other.first_clus,
                dst,
                new_name,
                None,
                sfn,
                es,
                e,
            ) && b.keeps_dir(o, self.first_clus)
    }

    /// Gives a file a new name in the same directory. A file that has the new name is
    /// overwritten.
    pub fn rename<D: BlockDevice>(
        &mut self,
        sb: &mut Fat32SuperBlock<D>,
        old_name: &str,
        new_name: &str,
    ) -> (r: Result<(), VfsError>)
        requires
            old(sb).inv(),
            old(self).file_type == FileType::Directory && !old(self).lacks_name(
                *old(sb),
                old_name@,
            ) ==> Self::name_fits(new_name@, old(sb).bpb.byts_per_clus as int),
        ensures
            final(sb).inv(),
            old(sb).faults() <= final(sb).faults(),
            exists|k: u64| k <= 2 && #[trigger] final(self).changed_times(*old(self), k),
            old(self).file_type != FileType::Directory ==> r == Err::<(), VfsError>(
                VfsError::NotADirectory,
            ) && *final(self) == *old(self) && *final(sb) == *old(sb),
            old(self).file_type == FileType::Directory ==> match r {
                Ok(_) => exists|
                    q: Fat32SuperBlock<D>,
                    a: Fat32SuperBlock<D>,
                    b: Fat32SuperBlock<D>,
                    c: Fat32SuperBlock<D>,
                    h: Fat32SuperBlock<D>,
                    files: Seq<dir::SlotView>,
                    e: Seq<u8>,
                    sfn: Seq<u8>,
                    es: Seq<Seq<u8>>,
                |
                    #[trigger] renamed(
                        q,
                        a,
                        b,
                        c,
                        h,
                        *final(sb),
                        old(self).first_clus,
                        files,
                        old_name@,
                        new_name@,
                        e,
                        sfn,
                        es,
                    ) && q.quiet(*old(sb)) && old(self).lists_as(*old(sb), files) && entry_named(
                        files,
                        old_name@,
                        e,
                    ) && final(self).changed_times(
                        *old(self),
                        (way_made(files, new_name@) + 1) as u64,
                    ),
                Err(VfsError::NotFound) => exists|q: Fat32SuperBlock<D>, files: Seq<dir::SlotView>|
                    #[trigger] q.quiet(*old(sb)) && #[trigger] old(self).lists_as(*old(sb), files)
                        && {
                        ||| names::first_named(files, old_name@, 0) is None && *final(sb) == q
                            && final(self).changed_times(*old(self), 0)
                        ||| old(sb).lacks(old(self).first_clus, new_name@) && left_unnamed(
                            q,
                            *final(sb),
                            files,
                            old(self).first_clus,
                            new_name@,
                        ) && final(self).changed_times(*old(self), 0)
                        ||| put_in_vain(
                            q,
                            *final(sb),
                            old(self).first_clus,
                            old_name@,
                            old(self).first_clus,
                            files,
                            new_name@,
                            true,
                        ) && final(self).changed_times(*old(self), way_made(files, new_name@))
                    },
                Err(VfsError::InvalidInput) => exists|
                    q: Fat32SuperBlock<D>,
                    files: Seq<dir::SlotView>,
                    e: Seq<u8>,
                |
                    q.quiet(*old(sb)) && #[trigger] old(self).lists_as(*old(sb), files)
                        && #[trigger] entry_named(files, old_name@, e)
                        && Fat32SuperBlock::<D>::refuses(
                        old(self).first_clus,
                        files,
                        new_name@,
                        Some(e.take(11)),
                    ) && #[trigger] made_way(
                        q,
                        *final(sb),
                        files,
                        old(self).first_clus,
                        new_name@,
                    ) && final(self).changed_times(*old(self), way_made(files, new_name@)),
                Err(VfsError::NoSpace) => exists|
                    q: Fat32SuperBlock<D>,
                    a: Fat32SuperBlock<D>,
                    files: Seq<dir::SlotView>,
                |
                    q.quiet(*old(sb)) && old(self).lists_as(*old(sb), files) && #[trigger] made_way(
                        q,
                        a,
                        files,
                        old(self).first_clus,
                        new_name@,
                    ) && lacked_room(a, *final(sb)) && final(self).changed_times(
                        *old(self),
                        way_made(files, new_name@),
                    ),
                Err(e) => e == VfsError::IOError && (old(sb).tracked_ok() && old(sb).has_chain(
                    old(self).first_clus as int,
                ) && old(self).way_clear(*old(sb), new_name@, old(self).first_clus)
                    ==> final(sb).faults() > old(sb).faults()),
            },
    {
        if self.file_type != FileType::Directory {
            assert(self.changed_times(*old(self), 0));
            return Err(VfsError::NotADirectory);
        }
        let ghost o = *sb;
        let ghost n0 = *self;
        let listed = self.get_dir_slots(sb);
        let ghost q = *sb;
        assert(self.changed_times(n0, 0));
        let slots: Arc<Vec<DirEntrySlot>> = match listed {
            Ok(v) => v,
            Err(e) => return Err(e),
        };
        let ghost files = dir::slot_views(slots@);
        assert(n0.lists_as(o, files));
        assert(q.quiet(o));
        let parent: u32 = self.first_clus;
        let t: usize = match find_slot(&slots, old_name) {
            Some(k) => k,
            None => return Err(VfsError::NotFound),
        };
        let entry: [u8; 32] = slots[t].sfn_entry;
        let ghost fine = o.tracked_ok() && o.has_chain(parent as int) && n0.way_clear(
            o,
            new_name@,
            parent,
        );
        proof {
            assert(files[t as int].sfn == entry@);
            assert(entry_named(files, old_name@, entry@));
            lemma_not_lacking(n0, o, files, old_name@, entry@);
            q.lemma_still_chained(o, parent as int);
            if fine {
                lemma_way_clear(n0, o, q, files, new_name@, parent);
            }
        }
        let target_sfn: [u8; 11] = sfn_in(&entry);
        let (w, put) = sb.bring_in(parent, &slots, new_name, Some(target_sfn), &entry);
        if w {
            self.dir_generation = self.dir_generation.wrapping_add(1);
        }
        assert(self.changed_times(
            n0,
            if w {
                1
            } else {
                0
            },
        ));
        match put {
            Ok(_) => {},
            Err(e) => {
                proof {
                    if e == VfsError::NotFound {
                        q.lemma_lacks_from(o, parent, new_name@);
                    }
                }
                return Err(e);
            },
        }
        let ghost b = *sb;
        let ghost (a, sfn, es) = choose|a: Fat32SuperBlock<D>, sfn: Seq<u8>, es: Seq<Seq<u8>>|
            #[trigger] b.group_put(
                a,
                parent,
                files,
                new_name@,
                Some(entry@.take(11)),
                sfn,
                es,
                entry@,
            ) && made_way(q, a, files, parent, new_name@);
        proof {
            if fine {
                lemma_way_made(q, a, files, parent, new_name@, parent);
                lemma_group_beside(a, b, parent, es, parent);
            }
        }
        match sb.remove_dir_entries(parent, old_name) {
            Ok(_) => {},
            Err(e) => {
                proof {
                    if e == VfsError::NotFound {
                        assert(b.lacks(parent, old_name@));
                        assert(short_but(true, entry@) == Some(entry@.take(11)));
                        assert(put_in_vain(
                            q,
                            *sb,
                            parent,
                            old_name@,
                            parent,
                            files,
                            new_name@,
                            true,
                        ));
                    }
                }
                return Err(e);
            },
        }
        let ghost c = *sb;
        self.dir_generation = self.dir_generation.wrapping_add(1);
        assert(self.changed_times(n0, (way_made(files, new_name@) + 1) as u64));
        sb.move_handles(parent, old_name, parent, new_name);
        let ghost h = *sb;
        if needs_parent(&entry, sb.bpb.root_clus) {
            match sb.flush_fat_cache() {
                Ok(_) => {},
                Err(e) => return Err(e),
            }
            let ghost k = *sb;
            let fc: u32 = first_clus_from_entry(&entry);
            match sb.set_parent(fc, parent) {
                Ok(_) => {},
                Err(e) => return Err(e),
            }
            assert(k.quiet(h));
        }
        assert(renamed(
            q,
            a,
            b,
            c,
            h,
            *sb,
            parent,
            files,
            old_name@,
            new_name@,
            entry@,
            sfn,
            es,
        ));
        Ok(())
    }

    /// Moves a file to another directory under a new name; `same_volume` tells whether that
    /// directory is of this volume too. A file that has the new name there is overwritten.
    /// The file is in the new directory before it leaves the old one, so that a crash
    /// cannot lose it: whatever comes back, the old directory is as it was, or the file has
    /// been put into the new one while it was.
    pub fn rename_across_dirs<D: BlockDevice>(
        &mut self,
        sb: &mut Fat32SuperBlock<D>,
        other: &mut Fat32Inode,
        same_volume: bool,
        old_name: &str,
        new_name: &str,
    ) -> (r: Result<(), VfsError>)
        requires
            old(sb).inv(),
            same_volume && old(self).file_type == FileType::Directory && old(other).file_type
                == FileType::Directory && !is_dot_name(old_name@) && !is_dot_name(new_name@)
                && !old(self).lacks_name(*old(sb), old_name@) ==> Self::name_fits(
                new_name@,
                old(sb).bpb.byts_per_clus as int,
            ),
        ensures
            final(sb).inv(),
            old(sb).faults() <= final(sb).faults(),
            r is Ok ==> final(sb).written_back(),
            exists|k: u64| k <= 1 && #[trigger] final(self).changed_times(*old(self), k),
            exists|k: u64| k <= 2 && #[trigger] final(other).changed_times(*old(other), k),
            !same_volume ==> r == Err::<(), VfsError>(VfsError::CrossDeviceLink) && *final(self)
                == *old(self) && *final(other) == *old(other) && *final(sb) == *old(sb),
            same_volume ==> if old(self).file_type != FileType::Directory
                || old(other).file_type != FileType::Directory {
                &&& r == Err::<(), VfsError>(VfsError::NotADirectory)
                &&& *final(self) == *old(self)
                &&& *final(other) == *old(other)
                &&& *final(sb) == *old(sb)
            } else if is_dot_name(old_name@) || is_dot_name(new_name@) {
                &&& r == Err::<(), VfsError>(VfsError::InvalidInput)
                &&& *final(self) == *old(self)
                &&& *final(other) == *old(other)
                &&& *final(sb) == *old(sb)
            } else {
                &&& old(self).handed_over(
                    *old(other),
                    *final(self),
                    *final(other),
                    *old(sb),
                    *final(sb),
                    old_name@,
                    new_name@,
                    r,
                )
                &&& old(sb).tracked_ok() && old(self).may_hand_over(
                    *old(sb),
                    *old(other),
                    new_name@,
                ) && old(self).first_clus != old(other).first_clus ==> old(self).never_lost(
                    *old(other),
                    *old(sb),
                    *final(sb),
                    new_name@,
                )
            },
    {
        proof {
            assert(self.changed_times(*old(self), 0));
            assert(other.changed_times(*old(other), 0));
        }
        if !same_volume {
            return Err(VfsError::CrossDeviceLink);
        }
        if self.file_type != FileType::Directory || other.file_type != FileType::Directory {
            return Err(VfsError::NotADirectory);
        }
        if same_text(old_name, ".") || same_text(old_name, "..") || same_text(new_name, ".")
            || same_text(new_name, "..") {
            return Err(VfsError::InvalidInput);
        }
        self.hand_over(sb, other, old_name, new_name)
    }

    /// Moves a file to another directory of the volume.
    fn hand_over<D: BlockDevice>(
        &mut self,
        sb: &mut Fat32SuperBlock<D>,
        other: &mut Fat32Inode,
        old_name: &str,
        new_name: &str,
    ) -> (r: Result<(), VfsError>)
        requires
            old(sb).inv(),
            !old(self).lacks_name(*old(sb), old_name@) ==> Self::name_fits(
                new_name@,
                old(sb).bpb.byts_per_clus as int,
            ),
        ensures
            final(sb).inv(),
            old(sb).faults() <= final(sb).faults(),
            r is Ok ==> final(sb).written_back(),
            exists|k: u64| k <= 1 && #[trigger] final(self).changed_times(*old(self), k),
            exists|k: u64| k <= 2 && #[trigger] final(other).changed_times(*old(other), k),
            old(self).handed_over(
                *old(other),
                *final(self),
                *final(other),
                *old(sb),
                *final(sb),
                old_name@,
                new_name@,
                r,
            ),
            old(sb).tracked_ok() && old(self).may_hand_over(*old(sb), *old(other), new_name@)
                && old(self).first_clus != old(other).first_clus ==> old(self).never_lost(
                *old(other),
                *old(sb),
                *final(sb),
                new_name@,
            ),
    {
        let ghost o = *sb;
        let ghost n0 = *self;
        let ghost m0 = *other;
        let src: u32 = self.first_clus;
        let dst: u32 = other.first_clus;
        let ghost fine = o.tracked_ok() && n0.may_hand_over(o, m0, new_name@);
        let listed = self.get_dir_slots(sb);
        let ghost q1 = *sb;
        proof {
            assert(self.changed_times(n0, 0));
            assert(other.changed_times(m0, 0));
            if o.sound() {
                q1.lemma_keeps_quiet(o, src);
            }
        }
        let slots_src: Arc<Vec<DirEntrySlot>> = match listed {
            Ok(v) => v,
            Err(e) => return Err(e),
        };
        let ghost sf = dir::slot_views(slots_src@);
        assert(n0.lists_as(o, sf));
        let t: Option<usize> = find_slot(&slots_src, old_name);
        let k: usize = match t {
            Some(k) => k,
            None => {
                proof {
                    let df = lemma_some_listing(m0, o);
                    assert(m0.lists_as(o, df));
                    assert(q1.quiet(o));
                }
                return Err(VfsError::NotFound);
            },
        };
        let entry: [u8; 32] = slots_src[k].sfn_entry;
        proof {
            assert(sf[k as int].sfn == entry@);
            assert(entry_named(sf, old_name@, entry@));
            lemma_not_lacking(n0, o, sf, old_name@, entry@);
            q1.lemma_still_chained(o, dst as int);
        }
        let listed_dst = other.get_dir_slots(sb);
        let ghost q = *sb;
        proof {
            assert(other.changed_times(m0, 0));
            q.lemma_quiet_trans(q1, o);
            assert(q.quiet(o));
            if o.sound() {
                q.lemma_keeps_quiet(o, src);
            }
        }
        let slots_dst: Arc<Vec<DirEntrySlot>> = match listed_dst {
            Ok(v) => v,
            Err(e) => return Err(e),
        };
        let ghost df = dir::slot_views(slots_dst@);
        proof {
            lemma_listed_after(m0, o, q1, df);
            if fine {
                q.lemma_still_chained(o, src as int);
                q.lemma_still_chained(o, dst as int);
                lemma_way_clear(m0, o, q, df, new_name@, src);
                lemma_way_clear(m0, o, q, df, new_name@, dst);
                if src != dst {
                    lemma_aside(n0, m0, o, q, df, new_name@);
                }
            }
        }
        let (w, put) = sb.bring_in(dst, &slots_dst, new_name, None, &entry);
        let ghost b = *sb;
        if w {
            other.dir_generation = other.dir_generation.wrapping_add(1);
        }
        proof {
            assert(other.changed_times(
                m0,
                if w {
                    1
                } else {
                    0
                },
            ));
            if fine && src != dst {
                b.lemma_keeps_trans(q, o, src);
            }
        }
        match put {
            Ok(_) => {},
            Err(e) => {
                proof {
                    if e == VfsError::NotFound {
                        q.lemma_lacks_from(o, dst, new_name@);
                    }
                }
                return Err(e);
            },
        }
        let ghost (a, sfn, es) = choose|a: Fat32SuperBlock<D>, sfn: Seq<u8>, es: Seq<Seq<u8>>|
            #[trigger] b.group_put(a, dst, df, new_name@, None, sfn, es, entry@) && made_way(
                q,
                a,
                df,
                dst,
                new_name@,
            );
        proof {
            if fine {
                lemma_way_made(q, a, df, dst, new_name@, src);
                lemma_way_made(q, a, df, dst, new_name@, dst);
                if src == dst {
                    lemma_group_beside(a, b, dst, es, src);
                } else {
                    let d = choose|d: Seq<u32>| #[trigger] o.is_file_chain(src as int, d);
                    assert(b.is_file_chain(src as int, d));
                }
                assert(b.has_chain(src as int));
            }
        }
        let (left, r) = sb.carry_off(src, dst, old_name, new_name, &entry);
        if left {
            self.dir_generation = self.dir_generation.wrapping_add(1);
            other.dir_generation = other.dir_generation.wrapping_add(1);
        }
        proof {
            assert(self.changed_times(
                n0,
                if left {
                    1
                } else {
                    0
                },
            ));
            assert(other.changed_times(
                m0,
                (way_made(df, new_name@) + if left {
                    1int
                } else {
                    0
                }) as u64,
            ));
            if r is Ok {
                let (c, p) = choose|c: Fat32SuperBlock<D>, p: Fat32SuperBlock<D>| #[trigger]
                    carried_off(b, c, p, *sb, src, old_name@, dst, new_name@, entry@);
                assert(moved(
                    q,
                    a,
                    b,
                    c,
                    p,
                    *sb,
                    src,
                    dst,
                    df,
                    old_name@,
                    new_name@,
                    entry@,
                    sfn,
                    es,
                ));
            } else if r == Err::<(), VfsError>(VfsError::NotFound) {
                assert(short_but(false, entry@) == None::<Seq<u8>>);
                assert(put_in_vain(q, *sb, src, old_name@, dst, df, new_name@, false));
            }
        }
        r
    }
}

/// What may be freed may be freed in a volume that is the same.
proof fn lemma_way_clear<D: BlockDevice>(
    n: Fat32Inode,
    o: Fat32SuperBlock<D>,
    q: Fat32SuperBlock<D>,
    files: Seq<dir::SlotView>,
    name: Seq<char>,
    clus: u32,
)
    requires
        o.tracked_ok(),
        q.quiet(o),
        n.lists_as(o, files),
        n.way_clear(o, name, clus),
    ensures
        q.tracked_ok(),
        names::first_named(files, name, 0) matches Some(j) ==> q.may_free(
            clus,
            dirent::entry_cluster(files[j].sfn) as u32,
        ),
{
    crate::fat32::dir_write::lemma_tracked_quiet(o, q);
    if let Some(j) = names::first_named(files, name, 0) {
        let fc = dirent::entry_cluster(files[j].sfn) as u32;
        assert(o.may_free(clus, fc));
        q.lemma_still_walked(o, fc);
        lemma_apart_same(o, q, clus, fc);
    }
}

/// Where the table is the same, what was apart is.
proof fn lemma_apart_same<D: BlockDevice>(
    o: Fat32SuperBlock<D>,
    q: Fat32SuperBlock<D>,
    clus: u32,
    fc: u32,
)
    requires
        o.sound(),
        q.sound(),
        q.bpb == o.bpb,
        q.same_table(o),
        o.apart(clus, fc),
    ensures
        q.apart(clus, fc),
{
    assert forall|d: Seq<u32>, w: Seq<u32>|
        #![trigger q.is_file_chain(clus as int, d), q.is_walk(fc as int, w)]
        q.is_file_chain(clus as int, d) && q.is_walk(fc as int, w) implies inode::disjoint(d, w) by {
        assert forall|x: int| q.has_entry(x) implies #[trigger] o.entry(x) == q.entry(x) by {
            assert(o.has_entry(x));
            assert(q.entry(x) == o.entry(x));
        }
        crate::fat32::file_write::lemma_chain_same(q, o, clus as int, d);
        o.lemma_walk_same(q, fc as int, w);
    }
}

/// Making way leaves the chain of a directory that the removed file is apart from.
proof fn lemma_way_made<D: BlockDevice>(
    q: Fat32SuperBlock<D>,
    a: Fat32SuperBlock<D>,
    files: Seq<dir::SlotView>,
    clus: u32,
    name: Seq<char>,
    kept: u32,
)
    requires
        q.tracked_ok(),
        q.has_chain(clus as int),
        q.has_chain(kept as int),
        made_way(q, a, files, clus, name),
        names::first_named(files, name, 0) matches Some(j) ==> q.may_free(
            kept,
            dirent::entry_cluster(files[j].sfn) as u32,
        ),
    ensures
        a.tracked_ok(),
        a.bpb == q.bpb,
        a.has_chain(kept as int),
        forall|d: Seq<u32>| #[trigger]
            q.is_file_chain(kept as int, d) ==> a.is_file_chain(kept as int, d),
{
    if let Some(j) = names::first_named(files, name, 0) {
        let (h, m, fc) = choose|h: Fat32SuperBlock<D>, m: Fat32SuperBlock<D>, fc: u32|
            #[trigger] a.overwritten(q, h, m, clus, name, fc) && fc == dirent::entry_cluster(
                files[j].sfn,
            );
        h.lemma_walk_handles(q, fc);
        h.lemma_same_source(q);
        lemma_tracked_same(q, h);
        m.lemma_walk_beside(h, clus, name, fc);
        lemma_tracked_same(h, m);
        assert forall|x: int| q.has_entry(x) implies #[trigger] m.entry(x) == q.entry(x) by {
            assert(h.has_entry(x));
            assert(m.entry(x) == h.entry(x));
        }
        lemma_apart_same(q, m, kept, fc);
        if 2 <= fc < EOC_MARKER {
            let w = choose|w: Seq<u32>| #[trigger] m.is_walk(fc as int, w);
            assert(a.freed(m, w, w.len() as int));
            crate::fat32::steps::lemma_freed_tracked(m, a, w);
            assert forall|d: Seq<u32>| #[trigger]
                q.is_file_chain(kept as int, d) implies a.is_file_chain(kept as int, d) by {
                crate::fat32::file_write::lemma_chain_same(q, m, kept as int, d);
                assert(inode::disjoint(d, w));
                assert forall|k: int| 0 <= k < d.len() implies a.entry(#[trigger] d[k] as int)
                    == m.entry(d[k] as int) by {
                    assert(m.is_cluster(d[k] as int));
                    assert(m.has_entry(d[k] as int));
                    if crate::fat32::allocator::among(w, w.len() as int, d[k] as int) {
                        let i = choose|i: int| 0 <= i < w.len() && #[trigger] w[i] == d[k] as int;
                        assert(d[k] != w[i]);
                    }
                }
                crate::fat32::grow::lemma_chain_kept(m, a, kept as int, d);
            }
        } else {
            crate::fat32::dir_write::lemma_tracked_quiet(m, a);
            assert forall|d: Seq<u32>| #[trigger]
                q.is_file_chain(kept as int, d) implies a.is_file_chain(kept as int, d) by {
                crate::fat32::file_write::lemma_chain_same(q, m, kept as int, d);
                crate::fat32::file_write::lemma_chain_same(m, a, kept as int, d);
            }
        }
    }
    let d = choose|d: Seq<u32>| #[trigger] q.is_file_chain(kept as int, d);
    assert(a.is_file_chain(kept as int, d));
}

/// Where the table and the bitmap are the same, they still agree.
proof fn lemma_tracked_same<D: BlockDevice>(o: Fat32SuperBlock<D>, q: Fat32SuperBlock<D>)
    requires
        o.tracked_ok(),
        q.sound(),
        q.bpb == o.bpb,
        q.alloc_bitmap == o.alloc_bitmap,
        q.same_table(o),
    ensures
        q.tracked_ok(),
{
    if q.alloc_bitmap is Some {
        let b = q.alloc_bitmap->0;
        assert forall|i: int| 0 <= i < q.bpb.total_clus implies #[trigger] b.bit(i) == (q.entry(
            i + 2,
        ) != 0) by {
            assert(o.has_entry(i + 2));
            assert(q.entry(i + 2) == o.entry(i + 2));
        }
    }
}

/// Adding entries to a directory leaves it, and others that share no cluster with it, chains.
proof fn lemma_group_beside<D: BlockDevice>(
    a: Fat32SuperBlock<D>,
    b: Fat32SuperBlock<D>,
    clus: u32,
    es: Seq<Seq<u8>>,
    kept: u32,
)
    requires
        a.tracked_ok(),
        a.has_chain(clus as int),
        a.has_chain(kept as int),
        b.entries_put(a, clus, es),
        kept == clus || forall|d: Seq<u32>, w: Seq<u32>|
            #![trigger a.is_file_chain(kept as int, d), a.is_file_chain(clus as int, w)]
            a.is_file_chain(kept as int, d) && a.is_file_chain(clus as int, w) ==> inode::disjoint(
                d,
                w,
            ),
    ensures
        b.has_chain(kept as int),
{
    let w = choose|w: Seq<u32>| #[trigger] a.is_file_chain(clus as int, w);
    let d = choose|d: Seq<u32>| #[trigger] a.is_file_chain(kept as int, d);
    assert(b.entries_added(a, w, es));
    if a.place(w, 0, es.len() as int) is Some {
        crate::fat32::file_write::lemma_chain_same(a, b, kept as int, d);
    } else {
        let c = choose|c: u32| #[trigger] b.dir_grown(a, w, c, es);
        assert(w[0] == clus);
        if kept == clus {
            assert(b.is_file_chain(clus as int, w.push(c)));
        } else {
            assert(inode::disjoint(d, w));
            assert forall|k: int| 0 <= k < d.len() implies b.entry(#[trigger] d[k] as int)
                == a.entry(d[k] as int) by {
                assert(a.is_cluster(d[k] as int));
                assert(a.has_entry(d[k] as int));
                crate::fat32::grow::lemma_chain_taken(a, kept as int, d, k);
                assert(d[k] != w[w.len() - 1]);
            }
            crate::fat32::grow::lemma_chain_kept(a, b, kept as int, d);
        }
    }
}

/// A directory lists something.
proof fn lemma_some_listing<D: BlockDevice>(n: Fat32Inode, o: Fat32SuperBlock<D>) -> (files: Seq<
    dir::SlotView,
>)
    ensures
        n.lists_as(o, files),
{
    let d0 = choose|d: Seq<u32>| #[trigger] n.lists(o, d);
    assert forall|d: Seq<u32>| #[trigger] n.lists(o, d) implies o.listing(d) == o.listing(d0) by {
        o.lemma_chain_unique(n.first_clus as int, d, d0);
    }
    o.listing(d0)
}

/// The name of a directory's entry for itself or for its parent.
pub open spec fn is_dot_name(name: Seq<char>) -> bool {
    name == "."@ || name == ".."@
}

/// A handle that was open on a file is open on it under its new name, so that removing
/// that name leaves the clusters to it.
pub proof fn law_handles_follow_the_name<D: BlockDevice>(
    m: Fat32SuperBlock<D>,
    f: Fat32SuperBlock<D>,
    src: u32,
    old_name: Seq<char>,
    dst: u32,
    new_name: Seq<char>,
    h: u64,
)
    requires
        f.handles_moved(m, src, old_name, dst, new_name),
        m.open_at(src, old_name).contains(h),
    ensures
        f.open_at(dst, new_name).contains(h),
{
    let open = |x: u64| m.open_set().contains(x);
    let moved = m.open_at(src, old_name);
    let all = f.handles_at(dst, new_name);
    let k = choose|k: int| 0 <= k < moved.len() && moved[k] == h;
    m.handles_at(src, old_name).lemma_filter_pred(open, k);
    let at = all.len() - moved.len() + k;
    assert(all[at] == h);
    all.lemma_filter_contains(open, at);
}

} // verus!
