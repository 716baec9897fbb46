//! Writing to a file.

use std::sync::Arc;
use vstd::prelude::*;

use crate::blockdriver::traits::BlockDevice;
use crate::fat32::allocator;
use crate::fat32::extend;
use crate::fat32::grow;
use crate::fat32::inode;
use crate::fat32::inode::Fat32Inode;
use crate::fat32::superblock::{Fat32SuperBlock, EOC_MARKER};
use crate::vfs::{FileType, VfsError};

verus! {

impl<D: BlockDevice> Fat32SuperBlock<D> {
    /// The clusters that were taken in `o`, but for those of `s` and `p`, hold what they
    /// held and lead where they led.
    pub open spec fn others_kept(self, o: Self, s: Seq<u32>, p: Seq<u32>) -> bool {
        forall|x: int| #[trigger]
            o.is_cluster(x) && o.entry(x) != 0 && !allocator::among(s, s.len() as int, x)
                && !allocator::among(p, p.len() as int, x) ==> self.entry(x) == o.entry(x)
                && self.data(x) == o.data(x)
    }

    /// The clusters of `p` hold what they held.
    pub open spec fn same_clusters(self, o: Self, p: Seq<u32>) -> bool {
        forall|j: int| 0 <= j < p.len() ==> self.data(#[trigger] p[j] as int) == o.data(p[j] as int)
    }
}

impl<D: BlockDevice> Fat32SuperBlock<D> {
    /// From `o`, the clusters `s` of a file have become `t`, enough for a write from
    /// `offset` to `end`: besides those it had, new ones, which hold zeros where the write
    /// does not overwrite them as a whole. What is known of places, handles and numbers is
    /// as it was, and so many clusters fewer are free.
    pub open spec fn made_room(
        self,
        o: Self,
        s: Seq<u32>,
        t: Seq<u32>,
        p: Seq<u32>,
        offset: int,
        end: int,
    ) -> bool {
        let cs = o.bpb.byts_per_clus as int;
        &&& self.same_places(o)
        &&& self.free_clus_count as int == (o.free_clus_count + s.len() - t.len()) % 0x1_0000_0000
        &&& self.searches_behind(o, t, s.len() < t.len())
        &&& s.len() <= t.len()
        &&& t.take(s.len() as int) == s
        &&& end <= t.len() * cs
        &&& forall|k: int| #![trigger t[k]]
            0 <= k < t.len() ==> self.data(t[k] as int) == (if s.len() <= k
                && !extend::is_covered(k, cs, offset, end) {
                grow::zeros(cs)
            } else {
                o.data(t[k] as int)
            })
        &&& forall|k: int| s.len() <= k < t.len() ==> o.entry(#[trigger] t[k] as int) == 0
        &&& self.others_kept(o, s, p)
    }
}

/// An extension makes room.
pub(crate) proof fn lemma_room<D: BlockDevice>(
    n: Fat32Inode,
    o: Fat32SuperBlock<D>,
    c: Fat32SuperBlock<D>,
    e: Fat32SuperBlock<D>,
    i: Fat32SuperBlock<D>,
    s: Seq<u32>,
    v: Seq<u32>,
    p: Seq<u32>,
    offset: int,
    end: int,
)
    requires
        n.placed(c, s, p),
        o.bpb.wf(),
        c.same_places(o),
        c.free_clus_count == o.free_clus_count,
        c.next_alloc_hint == o.next_alloc_hint,
        c.same_table(o),
        o.same_table(c),
        c.same_data(o),
        e.extended(c, s, v, offset, end),
        end <= (s.len() + v.len()) * o.bpb.byts_per_clus,
        i.inv(),
        i.same_but_chains(e),
        i.fat_cache == e.fat_cache,
        i.device == e.device,
    ensures
        i.tracked_ok(),
        i.is_file_chain((s + v)[0] as int, s + v),
        i.made_room(o, s, s + v, p, offset, end),
        !n.is_unlinked(o) ==> i.is_file_chain(n.parent_clus as int, p) && inode::disjoint(s + v, p)
            && i.stated(p, n.entry_name@) == c.stated(p, n.entry_name@) && i.told(
            o,
            p,
            n.entry_name@,
            None,
            None,
        ) && i.same_clusters(o, p),
{
    let t = s + v;
    let cs = o.bpb.byts_per_clus as int;
    i.lemma_same_source(e);
    if i.alloc_bitmap is Some {
        let b = i.alloc_bitmap->0;
        assert forall|j: int| 0 <= j < i.bpb.total_clus implies #[trigger] b.bit(j) == (i.entry(
            j + 2,
        ) != 0) by {
            let eb = e.alloc_bitmap->0;
            assert(eb.bit(j) == (e.entry(j + 2) != 0));
        }
    }
    assert(e.is_file_chain(t[0] as int, t));
    assert forall|k: int| 0 <= k < t.len() implies i.entry(#[trigger] t[k] as int) == e.entry(
        t[k] as int,
    ) by {}
    grow::lemma_chain_kept(e, i, t[0] as int, t);
    assert(t.take(s.len() as int) =~= s);
    if s.len() > 0 {
        lemma_chain_not_free(c, n.first_clus as int, s, v);
    }
    assert forall|k: int| #![trigger t[k]] 0 <= k < t.len() implies i.data(t[k] as int) == (
    if s.len() <= k && !extend::is_covered(k, cs, offset, end) {
        grow::zeros(cs)
    } else {
        o.data(t[k] as int)
    }) by {
        c.lemma_data_same(o, t[k] as int);
        assert(i.data(t[k] as int) == e.data(t[k] as int));
        if k < s.len() {
            assert(t[k] == s[k]);
            assert(c.is_cluster(s[k] as int));
        } else {
            assert(t[k] == v[k - s.len()]);
        }
    }
    assert forall|k: int| s.len() <= k < t.len() implies o.entry(#[trigger] t[k] as int) == 0 by {
        assert(t[k] == v[k - s.len()]);
        assert(c.is_cluster(v[k - s.len()] as int));
        assert(c.has_entry(t[k] as int));
    }
    assert forall|x: int| #[trigger]
        o.is_cluster(x) && o.entry(x) != 0 && !allocator::among(s, s.len() as int, x)
            && !allocator::among(p, p.len() as int, x) implies i.entry(x) == o.entry(x) && i.data(x)
        == o.data(x) by {
        assert(o.has_entry(x));
        assert(c.entry(x) == o.entry(x));
        if allocator::among(v, v.len() as int, x) {
            let j = choose|j: int| 0 <= j < v.len() && #[trigger] v[j] == x;
            assert(c.entry(v[j] as int) == 0);
        }
        if s.len() > 0 && x == s.last() {
            assert(s[s.len() - 1] == x);
        }
        c.lemma_data_same(o, x);
        assert(e.entry(x) == c.entry(x));
        assert(i.data(x) == e.data(x));
    }
    if !n.is_unlinked(o) {
        lemma_chain_not_free(c, n.parent_clus as int, p, v);
        assert forall|j: int| 0 <= j < p.len() implies i.entry(#[trigger] p[j] as int) == c.entry(
            p[j] as int,
        ) && i.data(p[j] as int) == c.data(p[j] as int) by {
            assert(c.has_entry(p[j] as int) && c.is_cluster(p[j] as int));
            if s.len() > 0 && p[j] == s.last() {
                assert(s[s.len() - 1] == p[j]);
            }
            assert(e.entry(p[j] as int) == c.entry(p[j] as int));
            assert(i.data(p[j] as int) == e.data(p[j] as int));
        }
        grow::lemma_chain_kept(c, i, n.parent_clus as int, p);
        assert forall|a: int, b: int| 0 <= a < t.len() && 0 <= b < p.len() implies #[trigger] t[a]
            != #[trigger] p[b] by {
            if a < s.len() {
                assert(t[a] == s[a]);
            } else {
                assert(t[a] == v[a - s.len()]);
            }
        }
        i.lemma_locate_same(c, p, 0, n.entry_name@);
        c.lemma_located(p, 0, n.entry_name@);
        assert forall|j: int| 0 <= j < p.len() implies i.data(#[trigger] p[j] as int) == o.data(
            p[j] as int,
        ) by {
            assert(i.data(p[j] as int) == c.data(p[j] as int));
            c.lemma_data_same(o, p[j] as int);
        }
        i.lemma_locate_same(o, p, 0, n.entry_name@);
    }
}

/// A step that leaves the table and the directory alone leaves the file placed.
pub proof fn lemma_placed_kept<D: BlockDevice>(
    n: Fat32Inode,
    o: Fat32SuperBlock<D>,
    f: Fat32SuperBlock<D>,
    s: Seq<u32>,
    p: Seq<u32>,
)
    requires
        n.placed(o, s, p),
        f.sound(),
        f.bpb == o.bpb,
        f.same_table(o),
        f.alloc_bitmap == o.alloc_bitmap,
        f.unlinked_handles == o.unlinked_handles,
        f.chains() == o.chains() || f.chains() == o.chains().insert(n.first_clus, s) || f.chains()
            == o.chains().remove(n.first_clus),
        n.is_unlinked(o) || forall|j: int|
            0 <= j < p.len() ==> f.data(#[trigger] p[j] as int) == o.data(p[j] as int),
    ensures
        n.placed(f, s, p),
{
    if f.alloc_bitmap is Some {
        let b = f.alloc_bitmap->0;
        assert forall|i: int| 0 <= i < f.bpb.total_clus implies #[trigger] b.bit(i) == (f.entry(
            i + 2,
        ) != 0) by {
            assert(o.has_entry(i + 2));
            assert(f.entry(i + 2) == o.entry(i + 2));
            let ob = o.alloc_bitmap->0;
            assert(ob.bit(i) == (o.entry(i + 2) != 0));
        }
    }
    if n.first_clus != 0 {
        lemma_chain_same(o, f, n.first_clus as int, s);
        if f.chains().contains_key(n.first_clus) && f.chains() == o.chains() {
            let c = f.chains()[n.first_clus];
            assert(o.is_chain(n.first_clus as int, c));
            o.lemma_chain_unique(n.first_clus as int, c, s);
        }
    }
    if !n.is_unlinked(o) {
        lemma_chain_same(o, f, n.parent_clus as int, p);
        f.lemma_locate_same(o, p, 0, n.entry_name@);
        if o.locate(p, 0, n.entry_name@) is Some {
            o.lemma_located(p, 0, n.entry_name@);
        }
    }
}

/// Where the table is the same, so are the chains.
pub proof fn lemma_chain_same<D: BlockDevice>(
    o: Fat32SuperBlock<D>,
    f: Fat32SuperBlock<D>,
    first: int,
    s: Seq<u32>,
)
    requires
        o.is_file_chain(first, s),
        f.bpb == o.bpb,
        f.same_table(o),
    ensures
        f.is_file_chain(first, s),
{
    assert forall|k: int| 0 <= k < s.len() implies f.entry(#[trigger] s[k] as int) == o.entry(
        s[k] as int,
    ) by {
        assert(o.has_entry(s[k] as int));
    }
    grow::lemma_chain_kept(o, f, first, s);
}

/// No cluster of a chain is free.
pub proof fn lemma_chain_not_free<D: BlockDevice>(
    o: Fat32SuperBlock<D>,
    first: int,
    s: Seq<u32>,
    v: Seq<u32>,
)
    requires
        o.is_file_chain(first, s),
        forall|k: int| 0 <= k < v.len() ==> o.entry(#[trigger] v[k] as int) == 0,
    ensures
        inode::disjoint(v, s),
        forall|k: int| 0 <= k < s.len() ==> !allocator::among(v, v.len() as int, #[trigger] s[k] as int),
{
    assert forall|i: int, j: int| 0 <= i < v.len() && 0 <= j < s.len() implies #[trigger] v[i]
        != #[trigger] s[j] by {
        grow::lemma_chain_taken(o, first, s, j);
    }
    assert forall|k: int| 0 <= k < s.len() implies !allocator::among(
        v,
        v.len() as int,
        #[trigger] s[k] as int,
    ) by {
        if allocator::among(v, v.len() as int, s[k] as int) {
            let j = choose|j: int| 0 <= j < v.len() && #[trigger] v[j] == s[k] as int;
            assert(v[j] != s[k]);
        }
    }
}

impl Fat32Inode {
    /// The file is placed, and its clusters were prepared for a write. Of other chains the
    /// same is remembered. The directory was told of the first cluster, where it is new, and
    /// is else as it was.
    pub open spec fn prepared<D: BlockDevice>(
        self,
        o: Fat32SuperBlock<D>,
        f: Fat32SuperBlock<D>,
        s: Seq<u32>,
        t: Seq<u32>,
        p: Seq<u32>,
        offset: int,
        end: int,
    ) -> bool {
        &&& self.placed(f, t, p)
        &&& f.made_room(o, s, t, p, offset, end)
        &&& f.chains_but(o, self.first_clus)
        &&& !self.is_unlinked(o) ==> if s.len() == 0 {
            f.told(o, p, self.entry_name@, Some(self.first_clus), Some(self.size))
        } else {
            f.told(o, p, self.entry_name@, None, None)
        }
    }

    /// Writes the first cluster and the size to the directory. A file whose name is gone
    /// must not: the entry may belong to another file by now.
    fn sync_clus_and_size<D: BlockDevice>(&self, sb: &mut Fat32SuperBlock<D>) -> (r: Result<
        (),
        VfsError,
    >)
        requires
            old(sb).inv(),
        ensures
            final(sb).inv(),
            final(sb).same_rest(*old(sb)),
            final(sb).none_dirtied(*old(sb)),
            r matches Err(e) ==> e == VfsError::NotFound || (e == VfsError::IOError && (
            old(sb).has_chain(self.parent_clus as int) ==> final(sb).faults() > old(sb).faults())),
            self.is_unlinked(*old(sb)) ==> r is Ok && *final(sb) == *old(sb),
            !self.is_unlinked(*old(sb)) ==> forall|p: Seq<u32>| #[trigger]
                old(sb).is_file_chain(self.parent_clus as int, p) && old(sb).sound() ==> match r {
                    Ok(_) => self.meta_written(
                        *old(sb),
                        *final(sb),
                        p,
                        Some(self.first_clus),
                        Some(self.size),
                    ),
                    Err(VfsError::NotFound) => old(sb).locate(p, 0, self.entry_name@) is None,
                    Err(_) => true,
                },
    {
        self.update_dirent_meta(sb, Some(self.first_clus), Some(self.size))
    }

    /// From `o` to `f`, the first cluster and the size, where given, were written to the
    /// entry in the directory `p`, and nothing else was.
    pub open spec fn meta_written<D: BlockDevice>(
        self,
        o: Fat32SuperBlock<D>,
        f: Fat32SuperBlock<D>,
        p: Seq<u32>,
        clus: Option<u32>,
        size: Option<u32>,
    ) -> bool {
        o.locate(p, 0, self.entry_name@) matches Some((k, i)) && f.cluster_set(
            o,
            p[k] as int,
            crate::bytes::splice(
                o.data(p[k] as int),
                32 * i,
                Fat32SuperBlock::<D>::updated_entry(
                    crate::fat32::dir::entry_at(o.data(p[k] as int), i),
                    clus,
                    size,
                ),
            ),
        )
    }

    /// Writes the first cluster and the size, where given, to the directory, unless the
    /// name is gone.
    pub fn update_dirent_meta<D: BlockDevice>(
        &self,
        sb: &mut Fat32SuperBlock<D>,
        clus: Option<u32>,
        size: Option<u32>,
    ) -> (r: Result<(), VfsError>)
        requires
            old(sb).inv(),
        ensures
            final(sb).inv(),
            final(sb).same_rest(*old(sb)),
            final(sb).none_dirtied(*old(sb)),
            r matches Err(e) ==> e == VfsError::NotFound || (e == VfsError::IOError && (
            old(sb).has_chain(self.parent_clus as int) ==> final(sb).faults() > old(sb).faults())),
            self.is_unlinked(*old(sb)) ==> r is Ok && *final(sb) == *old(sb),
            !self.is_unlinked(*old(sb)) ==> forall|p: Seq<u32>| #[trigger]
                old(sb).is_file_chain(self.parent_clus as int, p) && old(sb).sound() ==> match r {
                    Ok(_) => self.meta_written(*old(sb), *final(sb), p, clus, size),
                    Err(VfsError::NotFound) => old(sb).locate(p, 0, self.entry_name@) is None,
                    Err(_) => true,
                },
    {
        if self.unlinked(sb) {
            return Ok(());
        }
        sb.update_entry_cluster_and_size(self.parent_clus, self.entry_name.as_str(), clus, size)
    }

    /// The file is placed in `c` as in `o`, where the volume is the same but for what is
    /// remembered of the file's chain.
    pub open spec fn still_placed<D: BlockDevice>(
        self,
        o: Fat32SuperBlock<D>,
        c: Fat32SuperBlock<D>,
        s: Seq<u32>,
        p: Seq<u32>,
    ) -> bool {
        &&& self.placed(c, s, p)
        &&& c.same_places(o)
        &&& c.free_clus_count == o.free_clus_count
        &&& c.chains_but(o, self.first_clus)
        &&& c.alloc_bitmap == o.alloc_bitmap
        &&& c.next_alloc_hint == o.next_alloc_hint
        &&& c.same_data(o)
        &&& c.same_table(o)
        &&& o.same_table(c)
    }

    /// The number of the file's clusters, and the last of them.
    pub(crate) fn chain_end<D: BlockDevice>(&self, sb: &mut Fat32SuperBlock<D>) -> (r: Result<
        (u32, Option<u32>),
        VfsError,
    >)
        requires
            old(sb).inv(),
        ensures
            final(sb).inv(),
            final(sb).same_places(*old(sb)),
            final(sb).bpb == old(sb).bpb,
            self.first_clus == 0 ==> r == Ok::<(u32, Option<u32>), VfsError>((0, None))
                && *final(sb) == *old(sb),
            old(sb).faults() <= final(sb).faults(),
            match r {
                Ok((have, tail)) => forall|s: Seq<u32>, p: Seq<u32>| #[trigger]
                    self.placed(*old(sb), s, p) ==> self.still_placed(
                        *old(sb),
                        *final(sb),
                        s,
                        p,
                    ) && have <= s.len() && (have < 0xFFFF_FFFF ==> final(sb).is_tail_of(
                        s,
                        tail,
                        have as int,
                    )),
                Err(e) => e == VfsError::IOError && forall|s: Seq<u32>, p: Seq<u32>| #[trigger]
                    self.placed(*old(sb), s, p) ==> final(sb).faults() > old(sb).faults(),
            },
    {
        let ghost o = *sb;
        if self.first_clus == 0 {
            proof {
                assert forall|s: Seq<u32>, p: Seq<u32>| #[trigger] self.placed(
                    o,
                    s,
                    p,
                ) implies self.still_placed(o, o, s, p) by {
                    lemma_same_placed(*self, o, o, s, p);
                }
            }
            return Ok((0, None));
        }
        let chain: Arc<Vec<u32>> = match sb.chain_for(self.first_clus) {
            Ok(c) => c,
            Err(e) => {
                proof {
                    assert forall|s: Seq<u32>, p: Seq<u32>| #[trigger]
                        self.placed(o, s, p) implies sb.faults() > o.faults() by {
                        assert(o.is_file_chain(self.first_clus as int, s));
                        assert(o.has_chain(self.first_clus as int));
                    }
                }
                return Err(e);
            },
        };
        let ghost c = *sb;
        proof {
            assert forall|s: Seq<u32>, p: Seq<u32>| #[trigger] self.placed(o, s, p) implies chain@
                == s && self.still_placed(o, c, s, p) by {
                assert(o.is_chain(self.first_clus as int, s));
                c.lemma_chains_insert(o, self.first_clus, s);
                lemma_same_placed(*self, o, c, s, p);
            }
        }
        if chain.len() == 0 {
            return Ok((0, None));
        }
        let have: u32 = if chain.len() >= 0xFFFF_FFFF {
            0xFFFF_FFFF
        } else {
            chain.len() as u32
        };
        Ok((have, Some(chain[have as usize - 1])))
    }

    /// Gives the file `need` more clusters, where it has `have`, of which `tail` is the
    /// last.
    fn extend_file<D: BlockDevice>(
        &mut self,
        sb: &mut Fat32SuperBlock<D>,
        tail: Option<u32>,
        have: u32,
        need: u32,
        offset: u64,
        end: u64,
    ) -> (r: Result<(), VfsError>)
        requires
            old(sb).inv(),
            need > 0,
            have + need <= 0x1_0000_0000,
            offset <= end <= (have + need) * old(sb).bpb.byts_per_clus,
            end <= 0x1_0000_0000,
        ensures
            final(sb).inv(),
            final(sb).same_places(*old(sb)),
            final(self).same_file(*old(self)),
            final(self).size == old(self).size,
            final(self).mtime == old(self).mtime,
            old(self).first_clus != 0 ==> final(self).first_clus == old(self).first_clus,
            old(sb).faults() <= final(sb).faults(),
            r is Ok && old(self).first_clus != 0 && !old(self).is_unlinked(*old(sb)) ==> forall|
                s: Seq<u32>,
                p: Seq<u32>,
            | #[trigger]
                old(self).placed(*old(sb), s, p) && old(sb).is_tail_of(s, tail, have as int)
                    ==> final(sb).same_clusters(*old(sb), p),
            match r {
                Ok(_) => forall|s: Seq<u32>, p: Seq<u32>| #[trigger]
                    old(self).placed(*old(sb), s, p) && old(sb).is_tail_of(s, tail, have as int)
                        ==> exists|t: Seq<u32>| #[trigger]
                        final(self).prepared(
                            *old(sb),
                            *final(sb),
                            s,
                            t,
                            p,
                            offset as int,
                            end as int,
                        ),
                Err(VfsError::NoSpace) => old(sb).short_of(need as int) && *final(self)
                    == *old(self) && (final(sb).faults() == old(sb).faults() ==> final(sb).quiet(
                    *old(sb),
                )),
                Err(VfsError::NotFound) => forall|s: Seq<u32>, p: Seq<u32>|
                    !(#[trigger] old(self).placed(*old(sb), s, p) && old(sb).is_tail_of(
                        s,
                        tail,
                        have as int,
                    )),
                Err(e) => e == VfsError::IOError && forall|s: Seq<u32>, p: Seq<u32>| #[trigger]
                    old(self).placed(*old(sb), s, p) && old(sb).is_tail_of(s, tail, have as int)
                        ==> final(sb).faults() > old(sb).faults(),
            },
    {
        let ghost c = *sb;
        let ghost n0 = *self;
        let v: Vec<u32> = match sb.extend_for_write(tail, have, need, offset, end) {
            Ok(v) => v,
            Err(e) => return Err(e),
        };
        let ghost e = *sb;
        assert(c.same_table(c) && c.same_data(c));
        if self.first_clus == 0 {
            self.first_clus = v[0];
            sb.invalidate_chain(v[0]);
            let ghost i = *sb;
            assert(c.is_cluster(v@[0] as int));
            proof {
                i.lemma_chains_remove(e, c, v@[0]);
            }
            let r = self.sync_clus_and_size(sb);
            proof {
                let f = *sb;
                assert forall|s: Seq<u32>, p: Seq<u32>| #[trigger]
                    n0.placed(c, s, p) && c.is_tail_of(s, tail, have as int) implies r != Err::<
                    (),
                    VfsError,
                >(VfsError::NotFound) && (r == Err::<(), VfsError>(VfsError::IOError) ==> f.faults()
                    > c.faults()) && (r is Ok ==> self.prepared(
                    c,
                    f,
                    s,
                    s + v@,
                    p,
                    offset as int,
                    end as int,
                )) by {
                    lemma_room(n0, c, c, e, i, s, v@, p, offset as int, end as int);
                    assert((s + v@)[0] == v@[0]);
                    if !n0.is_unlinked(c) {
                        assert(i.is_file_chain(self.parent_clus as int, p));
                        assert(i.has_chain(self.parent_clus as int));
                    }
                    if r is Ok {
                        lemma_first_recorded(
                            n0,
                            *self,
                            c,
                            i,
                            f,
                            s,
                            s + v@,
                            p,
                            offset as int,
                            end as int,
                        );
                    }
                }
            }
            return r;
        }
        sb.invalidate_chain(self.first_clus);
        proof {
            let i = *sb;
            i.lemma_chains_remove(e, c, self.first_clus);
            assert forall|s: Seq<u32>, p: Seq<u32>| #[trigger]
                n0.placed(c, s, p) && c.is_tail_of(s, tail, have as int) implies self.prepared(
                c,
                i,
                s,
                s + v@,
                p,
                offset as int,
                end as int,
            ) && (!n0.is_unlinked(c) ==> i.same_clusters(c, p)) by {
                lemma_room(n0, c, c, e, i, s, v@, p, offset as int, end as int);
                assert((s + v@)[0] == s[0]);
            }
        }
        Ok(())
    }

    /// Gives the file the clusters that a write from `offset` to `end` needs.
    fn ensure_clusters<D: BlockDevice>(
        &mut self,
        sb: &mut Fat32SuperBlock<D>,
        offset: u64,
        end: u64,
    ) -> (r: Result<(), VfsError>)
        requires
            old(sb).inv(),
            old(self).first_clus == 0 || 2 <= old(self).first_clus < EOC_MARKER,
            offset < end <= u32::MAX,
        ensures
            final(sb).inv(),
            final(sb).same_places(*old(sb)),
            final(self).same_file(*old(self)),
            final(self).size == old(self).size,
            final(self).mtime == old(self).mtime,
            old(self).first_clus != 0 ==> final(self).first_clus == old(self).first_clus,
            old(sb).faults() <= final(sb).faults(),
            r is Ok && old(self).first_clus != 0 && !old(self).is_unlinked(*old(sb)) ==> forall|
                s: Seq<u32>,
                p: Seq<u32>,
            | #[trigger]
                old(self).placed(*old(sb), s, p) ==> final(sb).same_clusters(*old(sb), p),
            match r {
                Ok(_) => forall|s: Seq<u32>, p: Seq<u32>| #[trigger]
                    old(self).placed(*old(sb), s, p) ==> exists|t: Seq<u32>| #[trigger]
                        final(self).prepared(
                            *old(sb),
                            *final(sb),
                            s,
                            t,
                            p,
                            offset as int,
                            end as int,
                        ),
                Err(VfsError::NoSpace) => *final(self) == *old(self) && forall|
                    s: Seq<u32>,
                    p: Seq<u32>,
                | #[trigger]
                    old(self).placed(*old(sb), s, p) ==> old(sb).short_of(
                        clusters_for(end as int, old(sb).bpb.byts_per_clus as int) - s.len(),
                    ) && (final(sb).faults() == old(sb).faults() ==> old(self).still_placed(
                        *old(sb),
                        *final(sb),
                        s,
                        p,
                    )),
                Err(VfsError::NotFound) => forall|s: Seq<u32>, p: Seq<u32>|
                    !#[trigger] old(self).placed(*old(sb), s, p),
                Err(e) => e == VfsError::IOError && forall|s: Seq<u32>, p: Seq<u32>| #[trigger]
                    old(self).placed(*old(sb), s, p) ==> final(sb).faults() > old(sb).faults(),
            },
    {
        let ghost o = *sb;
        let ghost n0 = *self;
        let cs: u64 = sb.bpb.byts_per_clus as u64;
        assert((end - 1) / (cs as int) <= 0x80_0000) by (nonlinear_arith)
            requires
                0 < end <= 0xFFFF_FFFF,
                cs >= 512,
        ;
        let needed: u32 = ((end - 1) / cs + 1) as u32;
        assert(needed * cs >= end) by (nonlinear_arith)
            requires
                needed == (end - 1) / (cs as int) + 1,
                cs >= 512,
                end > 0,
        ;
        let (have, tail) = match self.chain_end(sb) {
            Ok(h) => h,
            Err(e) => return Err(e),
        };
        let ghost c = *sb;
        if have >= needed {
            proof {
                assert forall|s: Seq<u32>, p: Seq<u32>| #[trigger] n0.placed(
                    o,
                    s,
                    p,
                ) implies self.prepared(o, c, s, s, p, offset as int, end as int)
                    && c.same_clusters(o, p) by {
                    assert(self.still_placed(o, c, s, p));
                    c.lemma_same_clusters(o, p);
                    assert(needed * cs <= s.len() * cs) by (nonlinear_arith)
                        requires
                            needed <= s.len(),
                            cs >= 0,
                    ;
                    lemma_room_enough(o, c, s, p, offset as int, end as int);
                }
            }
            return Ok(());
        }
        let r = self.extend_file(sb, tail, have, needed - have, offset, end);
        proof {
            let f = *sb;
            assert forall|s: Seq<u32>, p: Seq<u32>| #[trigger] n0.placed(o, s, p) implies match r {
                Ok(_) => (exists|t: Seq<u32>| #[trigger]
                    self.prepared(o, f, s, t, p, offset as int, end as int)) && (n0.first_clus != 0
                    && !n0.is_unlinked(o) ==> f.same_clusters(o, p)),
                Err(VfsError::NoSpace) => o.short_of(
                    clusters_for(end as int, cs as int) - s.len(),
                ) && (f.faults() == o.faults() ==> n0.still_placed(o, f, s, p)),
                Err(VfsError::NotFound) => false,
                Err(_) => f.faults() > o.faults(),
            } by {
                assert(n0.still_placed(o, c, s, p));
                assert(n0.placed(c, s, p));
                if r is Ok {
                    let t = choose|t: Seq<u32>| #[trigger]
                        self.prepared(c, f, s, t, p, offset as int, end as int);
                    lemma_room_from(o, c, f, s, t, p, offset as int, end as int);
                    c.lemma_same_clusters(o, p);
                    if !self.is_unlinked(o) {
                        let first = (s.len() == 0);
                        f.lemma_told_from(
                            c,
                            o,
                            p,
                            self.entry_name@,
                            if first {
                                Some(self.first_clus)
                            } else {
                                None
                            },
                            if first {
                                Some(self.size)
                            } else {
                                None
                            },
                        );
                    }
                    assert(self.prepared(o, f, s, t, p, offset as int, end as int));
                } else if r == Err::<(), VfsError>(VfsError::NoSpace) {
                    c.lemma_short_same(o, needed - have);
                    if f.faults() == o.faults() {
                        lemma_still_quiet(n0, o, c, f, s, p);
                    }
                }
            }
        }
        r
    }
}

impl<D: BlockDevice> Fat32SuperBlock<D> {
    /// Where the device holds the same, so do clusters.
    pub(crate) proof fn lemma_same_clusters(self, o: Self, p: Seq<u32>)
        requires
            o.bpb.wf(),
            self.bpb == o.bpb,
            self.same_data(o),
        ensures
            self.same_clusters(o, p),
    {
        assert forall|j: int| 0 <= j < p.len() implies self.data(#[trigger] p[j] as int) == o.data(
            p[j] as int,
        ) by {
            self.lemma_data_same(o, p[j] as int);
        }
    }
}

/// A file that is still placed is so while the volume stays the same.
proof fn lemma_still_quiet<D: BlockDevice>(
    n: Fat32Inode,
    o: Fat32SuperBlock<D>,
    c: Fat32SuperBlock<D>,
    f: Fat32SuperBlock<D>,
    s: Seq<u32>,
    p: Seq<u32>,
)
    requires
        n.still_placed(o, c, s, p),
        f.quiet(c),
    ensures
        n.still_placed(o, f, s, p),
{
    lemma_same_placed(n, c, f, s, p);
    f.lemma_same_data_trans(c, o);
    assert forall|x: int| o.has_entry(x) implies #[trigger] f.entry(x) == o.entry(x) by {
        assert(c.has_entry(x));
        assert(c.entry(x) == o.entry(x));
    }
    assert forall|x: int| f.has_entry(x) implies #[trigger] o.entry(x) == f.entry(x) by {
        assert(c.has_entry(x));
        assert(c.entry(x) == o.entry(x));
        assert(f.entry(x) == c.entry(x));
    }
}

/// Room that was made in a volume that is the same.
proof fn lemma_room_from<D: BlockDevice>(
    o: Fat32SuperBlock<D>,
    c: Fat32SuperBlock<D>,
    f: Fat32SuperBlock<D>,
    s: Seq<u32>,
    t: Seq<u32>,
    p: Seq<u32>,
    offset: int,
    end: int,
)
    requires
        o.bpb.wf(),
        f.made_room(c, s, t, p, offset, end),
        c.same_places(o),
        c.free_clus_count == o.free_clus_count,
        c.next_alloc_hint == o.next_alloc_hint,
        c.same_data(o),
        c.same_table(o),
        o.sound(),
        forall|k: int| 0 <= k < t.len() ==> o.is_cluster(#[trigger] t[k] as int),
    ensures
        f.made_room(o, s, t, p, offset, end),
{
    let cs = o.bpb.byts_per_clus as int;
    assert forall|k: int| #![trigger t[k]] 0 <= k < t.len() implies o.data(t[k] as int) == c.data(
        t[k] as int,
    ) by {
        c.lemma_data_same(o, t[k] as int);
    }
    assert forall|k: int| s.len() <= k < t.len() implies o.entry(#[trigger] t[k] as int) == 0 by {
        assert(o.is_cluster(t[k] as int));
        assert(c.entry(t[k] as int) == o.entry(t[k] as int));
    }
    assert forall|x: int| #[trigger]
        o.is_cluster(x) && o.entry(x) != 0 && !allocator::among(s, s.len() as int, x)
            && !allocator::among(p, p.len() as int, x) implies f.entry(x) == o.entry(x) && f.data(x)
        == o.data(x) by {
        assert(o.has_entry(x));
        assert(c.entry(x) == o.entry(x));
        c.lemma_data_same(o, x);
        assert(c.is_cluster(x));
    }
}

/// Reading the chain leaves the file placed.
pub(crate) proof fn lemma_same_placed<D: BlockDevice>(
    n: Fat32Inode,
    o: Fat32SuperBlock<D>,
    c: Fat32SuperBlock<D>,
    s: Seq<u32>,
    p: Seq<u32>,
)
    requires
        n.placed(o, s, p),
        c.quiet_but_chains(o) || c == o,
        c.chains() == o.chains() || (n.first_clus != 0 && c.chains() == o.chains().insert(
            n.first_clus,
            s,
        )),
    ensures
        n.placed(c, s, p),
        c.same_data(o),
        c.same_table(o),
        o.same_table(c),
{
    assert forall|j: int| 0 <= j < p.len() implies c.data(#[trigger] p[j] as int) == o.data(
        p[j] as int,
    ) by {
        c.lemma_data_same(o, p[j] as int);
    }
    lemma_placed_kept(n, o, c, s, p);
    assert forall|x: int| c.has_entry(x) implies #[trigger] o.entry(x) == c.entry(x) by {
        assert(o.has_entry(x));
        assert(c.entry(x) == o.entry(x));
    }
}

/// A file that has the clusters needs no more.
pub(crate) proof fn lemma_room_enough<D: BlockDevice>(
    o: Fat32SuperBlock<D>,
    c: Fat32SuperBlock<D>,
    s: Seq<u32>,
    p: Seq<u32>,
    offset: int,
    end: int,
)
    requires
        o.sound(),
        c.same_places(o),
        c.free_clus_count == o.free_clus_count,
        c.next_alloc_hint == o.next_alloc_hint,
        c.same_data(o),
        c.same_table(o),
        end <= s.len() * o.bpb.byts_per_clus,
    ensures
        c.made_room(o, s, s, p, offset, end),
{
    assert(s.take(s.len() as int) =~= s);
    assert forall|k: int| #![trigger s[k]] 0 <= k < s.len() implies c.data(s[k] as int) == o.data(
        s[k] as int,
    ) by {
        c.lemma_data_same(o, s[k] as int);
    }
    assert forall|x: int| #[trigger]
        o.is_cluster(x) && o.entry(x) != 0 && !allocator::among(s, s.len() as int, x)
            && !allocator::among(p, p.len() as int, x) implies c.entry(x) == o.entry(x) && c.data(x)
        == o.data(x) by {
        assert(o.has_entry(x));
        c.lemma_data_same(o, x);
    }
}

/// Once the first clusters of an empty file are recorded, the file is placed.
pub(crate) proof fn lemma_first_recorded<D: BlockDevice>(
    n0: Fat32Inode,
    n: Fat32Inode,
    o: Fat32SuperBlock<D>,
    i: Fat32SuperBlock<D>,
    f: Fat32SuperBlock<D>,
    s: Seq<u32>,
    t: Seq<u32>,
    p: Seq<u32>,
    offset: int,
    end: int,
)
    requires
        i.tracked_ok(),
        n.same_file(n0),
        n.first_clus != 0,
        i.is_file_chain(n.first_clus as int, t),
        i.made_room(o, s, t, p, offset, end),
        i.chains_but(o, n.first_clus),
        !i.chains().contains_key(n.first_clus),
        n0.is_unlinked(o) ==> f == i,
        s.len() == 0,
        !n0.is_unlinked(o) ==> i.is_file_chain(n0.parent_clus as int, p) && inode::disjoint(t, p)
            && i.same_clusters(o, p) && n.meta_written(
            i,
            f,
            p,
            Some(n.first_clus),
            Some(n.size),
        ),
    ensures
        n.prepared(o, f, s, t, p, offset, end),
{
    if !n0.is_unlinked(o) {
        let (c, size) = (Some(n.first_clus), Some(n.size));
        let (k, j) = i.locate(p, 0, n.entry_name@)->0;
        i.lemma_located(p, 0, n.entry_name@);
        f.lemma_told(i, p, n.entry_name@, c, size);
        f.lemma_told_is_stated(i, p, n.entry_name@, c, size);
        f.lemma_told_from(i, o, p, n.entry_name@, c, size);
        lemma_entry_written(n, o, i, f, s, t, p, offset, end, k);
    }
}

/// Changing the directory's cluster `p[k]` leaves the file's chain, and the room made for
/// it, alone.
pub(crate) proof fn lemma_entry_written<D: BlockDevice>(
    n: Fat32Inode,
    o: Fat32SuperBlock<D>,
    i: Fat32SuperBlock<D>,
    f: Fat32SuperBlock<D>,
    s: Seq<u32>,
    t: Seq<u32>,
    p: Seq<u32>,
    offset: int,
    end: int,
    k: int,
)
    requires
        i.tracked_ok(),
        n.first_clus != 0,
        i.is_file_chain(n.first_clus as int, t),
        i.chain_fresh(n.first_clus),
        i.made_room(o, s, t, p, offset, end),
        i.chains_but(o, n.first_clus),
        i.is_file_chain(n.parent_clus as int, p),
        inode::disjoint(t, p),
        0 <= k < p.len(),
        f.cluster_touched(i, p[k] as int),
        f.stated(p, n.entry_name@) matches Some((first, _)) && first == n.first_clus,
        s.len() == 0,
        f.told(o, p, n.entry_name@, Some(n.first_clus), Some(n.size)),
    ensures
        n.prepared(o, f, s, t, p, offset, end),
{
    if f.alloc_bitmap is Some {
        let b = f.alloc_bitmap->0;
        assert forall|j: int| 0 <= j < f.bpb.total_clus implies #[trigger] b.bit(j) == (f.entry(
            j + 2,
        ) != 0) by {
            assert(i.has_entry(j + 2));
            assert(f.entry(j + 2) == i.entry(j + 2));
            let ib = i.alloc_bitmap->0;
            assert(ib.bit(j) == (i.entry(j + 2) != 0));
        }
    }
    lemma_chain_same(i, f, n.first_clus as int, t);
    lemma_chain_same(i, f, n.parent_clus as int, p);
    if f.chains().contains_key(n.first_clus) {
        let c = f.chains()[n.first_clus];
        assert(i.is_chain(n.first_clus as int, c));
        i.lemma_chain_unique(n.first_clus as int, c, t);
    }
    assert forall|j: int| #![trigger t[j]] 0 <= j < t.len() implies f.data(t[j] as int) == i.data(
        t[j] as int,
    ) by {
        assert(i.is_cluster(t[j] as int));
        assert(t[j] != p[k]);
    }
    assert forall|x: int| #[trigger]
        o.is_cluster(x) && o.entry(x) != 0 && !allocator::among(s, s.len() as int, x)
            && !allocator::among(p, p.len() as int, x) implies f.entry(x) == o.entry(x) && f.data(x)
        == o.data(x) by {
        assert(i.has_entry(x));
        assert(p[k] != x);
        assert(i.entry(x) == o.entry(x));
    }
}

/// What is stored in the clusters of a chain is in no other cluster.
pub proof fn lemma_chain_only_data<D: BlockDevice>(
    c: Fat32SuperBlock<D>,
    w: Fat32SuperBlock<D>,
    t: Seq<u32>,
    x: int,
)
    requires
        c.bpb.wf(),
        w.bpb == c.bpb,
        w.chain_only(c, t),
        forall|k: int| 0 <= k < t.len() ==> 2 <= #[trigger] t[k],
        2 <= x,
        !allocator::among(t, t.len() as int, x),
    ensures
        w.data(x) == c.data(x),
{
    let base = c.bpb.lba_of(x) * 512;
    assert forall|i: int| 0 <= i < c.bpb.byts_per_clus implies w.data(x)[i] == c.data(x)[i] by {
        let pos = base + i;
        assert(c.off_chain(t, pos)) by {
            assert forall|k: int| 0 <= k < t.len() implies pos < c.bpb.lba_of(
                (#[trigger] t[k]) as int,
            ) * 512 || c.bpb.lba_of(t[k] as int) * 512 + c.bpb.byts_per_clus <= pos by {
                assert(t[k] != x);
                if x < t[k] {
                    c.lemma_clusters_apart(x, t[k] as int);
                } else {
                    c.lemma_clusters_apart(t[k] as int, x);
                }
            }
        }
        assert(w.device.disk()(pos) == c.device.disk()(pos));
    }
    assert(w.data(x) =~= c.data(x));
}

/// Where the clusters of a chain hold the same, so does the chain.
pub proof fn lemma_bytes_same<D: BlockDevice>(
    o: Fat32SuperBlock<D>,
    f: Fat32SuperBlock<D>,
    t: Seq<u32>,
)
    requires
        o.bpb.wf(),
        f.bpb == o.bpb,
        forall|k: int| #![trigger t[k]]
            0 <= k < t.len() ==> f.data(t[k] as int) == o.data(t[k] as int),
    ensures
        forall|q: int|
            0 <= q < t.len() * o.bpb.byts_per_clus ==> #[trigger] f.chain_byte(t, q)
                == o.chain_byte(t, q),
{
    assert forall|q: int|
        0 <= q < t.len() * o.bpb.byts_per_clus implies #[trigger] f.chain_byte(t, q)
        == o.chain_byte(t, q) by {
        o.lemma_chain_pos(t, q);
        let k = q / (o.bpb.byts_per_clus as int);
        assert(f.data(t[k] as int) == o.data(t[k] as int));
    }
}

impl<D: BlockDevice> Fat32SuperBlock<D> {
    /// Byte `q` of the clusters `t` of a file of `size` bytes, of which it had `have`, once
    /// `data` was written from `offset` on. What the data does not reach is zero in new
    /// clusters, and behind the data in a cluster that lay wholly behind the end of the file;
    /// all else is as the clusters held it.
    pub open spec fn written_byte(
        self,
        have: int,
        t: Seq<u32>,
        size: int,
        offset: int,
        data: Seq<u8>,
        q: int,
    ) -> u8 {
        let cs = self.bpb.byts_per_clus as int;
        let end = offset + data.len();
        let tail = (end / cs) * cs;
        if offset <= q < end {
            data[q - offset]
        } else if offset <= tail && size <= tail && tail < end <= q < tail + cs {
            0
        } else if have <= q / cs {
            0
        } else {
            self.chain_byte(t, q)
        }
    }
}

impl Fat32Inode {
    /// From `o` to `f`, `data` was written to the file `n`, whose clusters were `s` and are
    /// now `t`, which is remembered. The directory was told of the first cluster, where it is
    /// new, and of the size, where that has grown, and is else as it was. The table has been
    /// written back, and what belongs to other files is as it was, as are places, handles and
    /// numbers. The clusters that were taken are no longer counted as free. Where the file had
    /// clusters, the data was stored and the table written back while the directory was as it
    /// had been: a crash in between shows a chain that is consistent.
    pub open spec fn written<D: BlockDevice>(
        self,
        n: Fat32Inode,
        o: Fat32SuperBlock<D>,
        f: Fat32SuperBlock<D>,
        s: Seq<u32>,
        t: Seq<u32>,
        p: Seq<u32>,
        offset: int,
        data: Seq<u8>,
    ) -> bool {
        &&& self.placed(f, t, p)
        &&& f.same_places(o)
        &&& f.free_clus_count as int == (o.free_clus_count + s.len() - t.len()) % 0x1_0000_0000
        &&& f.searches_behind(o, t, s.len() < t.len())
        &&& f.chains() == o.chains().insert(self.first_clus, t)
        &&& f.written_back()
        &&& self.size == if n.size < offset + data.len() {
            offset + data.len()
        } else {
            n.size as int
        }
        &&& s.len() <= t.len()
        &&& t.take(s.len() as int) == s
        &&& offset + data.len() <= t.len() * o.bpb.byts_per_clus
        &&& forall|k: int| s.len() <= k < t.len() ==> o.entry(#[trigger] t[k] as int) == 0
        &&& forall|q: int|
            0 <= q < t.len() * o.bpb.byts_per_clus ==> #[trigger] f.chain_byte(t, q)
                == o.written_byte(s.len() as int, t, n.size as int, offset, data, q)
        &&& f.others_kept(o, s, p)
        &&& !n.is_unlinked(o) ==> f.told(
            o,
            p,
            n.entry_name@,
            if s.len() == 0 {
                Some(self.first_clus)
            } else {
                None
            },
            if s.len() == 0 || n.size < offset + data.len() {
                Some(self.size)
            } else {
                None
            },
        )
        &&& n.first_clus != 0 && !n.is_unlinked(o) ==> exists|m: Fat32SuperBlock<D>| #[trigger]
            f.kept_but(m, t, p) && m.written_back() && m.is_file_chain(self.first_clus as int, t)
                && m.same_clusters(o, p)
    }

    /// From `o` to `f`, `data` was stored in the clusters `t` of the file from `offset` on.
    pub open spec fn stored<D: BlockDevice>(
        self,
        o: Fat32SuperBlock<D>,
        f: Fat32SuperBlock<D>,
        t: Seq<u32>,
        p: Seq<u32>,
        offset: int,
        data: Seq<u8>,
    ) -> bool {
        &&& self.placed(f, t, p)
        &&& f.same_places(o)
        &&& f.free_clus_count == o.free_clus_count
        &&& f.next_alloc_hint == o.next_alloc_hint
        &&& f.chains() == o.chains().insert(self.first_clus, t)
        &&& f.written_back()
        &&& f.same_table(o)
        &&& forall|q: int|
            0 <= q < t.len() * o.bpb.byts_per_clus ==> #[trigger] f.chain_byte(t, q)
                == o.stored_byte(t, offset, data, self.size as int, q)
        &&& forall|x: int|
            2 <= x < 0x1_0000_0000 && !allocator::among(t, t.len() as int, x)
                ==> #[trigger] f.data(x) == o.data(x)
    }

    /// Stores `buf` in the clusters that the file has, and writes the table back.
    fn store<D: BlockDevice>(&self, sb: &mut Fat32SuperBlock<D>, offset: u64, buf: &[u8]) -> (r:
        Result<(), VfsError>)
        requires
            old(sb).inv(),
            offset + buf@.len() <= 0x1_0000_0000,
        ensures
            final(sb).inv(),
            final(sb).same_places(*old(sb)),
            old(sb).faults() <= final(sb).faults(),
            match r {
                Ok(_) => forall|t: Seq<u32>, p: Seq<u32>| #[trigger]
                    self.placed(*old(sb), t, p) && t.len() > 0 && offset + buf@.len() <= t.len()
                        * old(sb).bpb.byts_per_clus ==> self.stored(
                        *old(sb),
                        *final(sb),
                        t,
                        p,
                        offset as int,
                        buf@,
                    ),
                Err(e) => e == VfsError::IOError && forall|t: Seq<u32>, p: Seq<u32>| #[trigger]
                    self.placed(*old(sb), t, p) && t.len() > 0 && buf@.len() > 0 && offset
                        + buf@.len() <= t.len() * old(sb).bpb.byts_per_clus ==> final(sb).faults()
                        > old(sb).faults(),
            },
    {
        let ghost o = *sb;
        proof {
            assert forall|t: Seq<u32>, p: Seq<u32>| #[trigger]
                self.placed(o, t, p) && t.len() > 0 implies o.is_chain(self.first_clus as int, t)
                && o.has_chain(self.first_clus as int) && 2 <= self.first_clus < EOC_MARKER by {
                assert(o.is_file_chain(self.first_clus as int, t));
                assert(o.is_cluster(t[0] as int));
            }
        }
        let chain: Arc<Vec<u32>> = match sb.chain_for(self.first_clus) {
            Ok(c) => c,
            Err(e) => return Err(e),
        };
        let ghost c = *sb;
        if offset / (sb.bpb.byts_per_clus as u64) >= chain.len() as u64 {
            proof {
                let cs = o.bpb.byts_per_clus as int;
                assert forall|t: Seq<u32>, p: Seq<u32>| #[trigger]
                    self.placed(o, t, p) && t.len() > 0 && buf@.len() > 0 implies offset
                    + buf@.len() > t.len() * cs by {
                    assert(chain@ == t);
                    assert(offset >= t.len() * cs) by (nonlinear_arith)
                        requires
                            offset as int / cs >= t.len(),
                            cs > 0,
                    ;
                }
            }
            return Err(VfsError::IOError);
        }
        match sb.write_chain(&chain, offset, buf, self.size as u64) {
            Ok(_) => {},
            Err(e) => return Err(e),
        }
        let ghost w = *sb;
        match sb.flush_fat_cache() {
            Ok(_) => {},
            Err(e) => return Err(e),
        }
        proof {
            let f = *sb;
            assert forall|t: Seq<u32>, p: Seq<u32>| #[trigger]
                self.placed(o, t, p) && t.len() > 0 && offset + buf@.len() <= t.len()
                    * o.bpb.byts_per_clus implies self.stored(o, f, t, p, offset as int, buf@) by {
                assert(o.is_chain(self.first_clus as int, t));
                assert(o.is_cluster(t[0] as int));
                assert(chain@ == t);
                assert(buf@.subrange(0, buf@.len() as int) =~= buf@);
                assert(c.is_storable(t)) by {
                    o.lemma_chain_distinct(self.first_clus as int, t);
                    assert forall|k: int| 0 <= k < t.len() implies 2 <= #[trigger] t[k] by {
                        assert(o.is_cluster(t[k] as int));
                    }
                }
                lemma_stored(*self, o, c, w, f, t, p, offset as int, buf@);
            }
        }
        Ok(())
    }

    /// Writes `buf` to the file from `offset` on; the file grows as needed. `now` is the
    /// time of the change, where it is known.
    pub fn write_at<D: BlockDevice>(
        &mut self,
        sb: &mut Fat32SuperBlock<D>,
        offset: u64,
        buf: &[u8],
        now: Option<u64>,
    ) -> (r: Result<usize, VfsError>)
        requires
            old(sb).inv(),
            old(self).file_type == FileType::Regular && 0 < buf@.len() && offset + buf@.len()
                <= u32::MAX ==> old(self).first_clus == 0 || 2 <= old(self).first_clus < EOC_MARKER,
        ensures
            final(sb).inv(),
            final(sb).same_places(*old(sb)),
            final(self).same_file(*old(self)),
            old(sb).faults() <= final(sb).faults(),
            r is Err ==> final(self).still_held(
                *old(self),
                if old(self).size < offset + buf@.len() {
                    offset + buf@.len()
                } else {
                    old(self).size as int
                },
            ),
            old(self).file_type != FileType::Regular ==> r == Err::<usize, VfsError>(
                VfsError::IsADirectory,
            ) && *final(self) == *old(self) && *final(sb) == *old(sb),
            old(self).file_type == FileType::Regular && buf@.len() == 0 ==> r == Ok::<
                usize,
                VfsError,
            >(0) && *final(self) == *old(self) && *final(sb) == *old(sb),
            old(self).file_type == FileType::Regular && buf@.len() > 0 && offset + buf@.len()
                > u32::MAX ==> r == Err::<usize, VfsError>(VfsError::FileTooLarge) && *final(self)
                == *old(self) && *final(sb) == *old(sb),
            old(self).file_type == FileType::Regular && buf@.len() > 0 && offset + buf@.len()
                <= u32::MAX ==> match r {
                Ok(n) => n == buf@.len() && final(self).size == (if old(self).size < offset
                    + buf@.len() {
                    offset + buf@.len()
                } else {
                    old(self).size as int
                }) && final(self).mtime == (match now {
                    Some(t) => t,
                    None => 0,
                }) && forall|s: Seq<u32>, p: Seq<u32>| #[trigger]
                    old(self).placed(*old(sb), s, p) ==> exists|t: Seq<u32>| #[trigger]
                        final(self).written(
                            *old(self),
                            *old(sb),
                            *final(sb),
                            s,
                            t,
                            p,
                            offset as int,
                            buf@,
                        ),
                Err(VfsError::NoSpace) => *final(self) == *old(self) && forall|
                    s: Seq<u32>,
                    p: Seq<u32>,
                | #[trigger]
                    old(self).placed(*old(sb), s, p) ==> old(sb).short_of(
                        clusters_for(
                            offset + buf@.len(),
                            old(sb).bpb.byts_per_clus as int,
                        ) - s.len(),
                    ) && (final(sb).faults() == old(sb).faults() ==> old(self).still_placed(
                        *old(sb),
                        *final(sb),
                        s,
                        p,
                    )),
                Err(VfsError::NotFound) => forall|s: Seq<u32>, p: Seq<u32>|
                    !#[trigger] old(self).placed(*old(sb), s, p),
                Err(e) => e == VfsError::IOError && forall|s: Seq<u32>, p: Seq<u32>| #[trigger]
                    old(self).placed(*old(sb), s, p) ==> final(sb).faults() > old(sb).faults(),
            },
    {
        if self.file_type != FileType::Regular {
            return Err(VfsError::IsADirectory);
        }
        if buf.len() == 0 {
            return Ok(0);
        }
        if buf.len() as u64 > u32::MAX as u64 || offset > u32::MAX as u64 - buf.len() as u64 {
            return Err(VfsError::FileTooLarge);
        }
        let ghost o = *sb;
        let ghost n0 = *self;
        let end: u64 = offset + buf.len() as u64;
        match self.ensure_clusters(sb, offset, end) {
            Ok(_) => {},
            Err(e) => return Err(e),
        }
        let ghost e = *sb;
        let ghost n1 = *self;
        proof {
            assert forall|s: Seq<u32>, p: Seq<u32>| #[trigger] n0.placed(o, s, p) implies exists|
                t: Seq<u32>,
            |
                #[trigger] n1.placed(e, t, p) && t.len() > 0 && end <= t.len()
                    * e.bpb.byts_per_clus by {
                let t = choose|t: Seq<u32>| #[trigger]
                    n1.prepared(o, e, s, t, p, offset as int, end as int);
                assert(n1.placed(e, t, p));
            }
        }
        match self.store(sb, offset, buf) {
            Ok(_) => {},
            Err(e) => return Err(e),
        }
        let ghost f = *sb;
        let new_size: u32 = if self.size < end as u32 {
            end as u32
        } else {
            self.size
        };
        if new_size > self.size {
            self.size = new_size;
            let r = self.update_dirent_meta(sb, None, Some(new_size));
            proof {
                if f.written_back() {
                    sb.lemma_still_written_back(f);
                }
                assert forall|t: Seq<u32>, p: Seq<u32>| #[trigger] n1.placed(f, t, p) implies r
                    != Err::<(), VfsError>(VfsError::NotFound) && (r is Err ==> sb.faults()
                    > f.faults()) && (r is Ok ==> self.placed(
                    *sb,
                    t,
                    p,
                ) && sb.kept_but(f, t, p) && (!n1.is_unlinked(f) ==> sb.told(
                    f,
                    p,
                    n1.entry_name@,
                    None,
                    Some(self.size),
                ))) by {
                    if !n1.is_unlinked(f) {
                        assert(f.is_file_chain(self.parent_clus as int, p));
                        assert(f.has_chain(self.parent_clus as int));
                    }
                    if r is Ok {
                        lemma_size_written(n1, *self, f, *sb, t, p);
                    }
                }
            }
            proof {
                assert forall|s: Seq<u32>, p: Seq<u32>| #[trigger]
                    n0.placed(o, s, p) implies exists|t: Seq<u32>| #[trigger]
                    n1.placed(f, t, p) by {
                    let t = choose|t: Seq<u32>|
                        #[trigger] n1.placed(e, t, p) && t.len() > 0 && end <= t.len()
                            * e.bpb.byts_per_clus;
                    assert(n1.stored(e, f, t, p, offset as int, buf@));
                    assert(n1.placed(f, t, p));
                }
            }
            match r {
                Ok(_) => {},
                Err(e) => return Err(e),
            }
        }
        self.mtime = match now {
            Some(t) => t,
            None => 0,
        };
        proof {
            assert forall|s: Seq<u32>, p: Seq<u32>| #[trigger] n0.placed(o, s, p) implies exists|
                t: Seq<u32>,
            | #[trigger]
                self.written(n0, o, *sb, s, t, p, offset as int, buf@) by {
                let t = choose|t: Seq<u32>| #[trigger]
                    n1.prepared(o, e, s, t, p, offset as int, end as int);
                assert(n1.placed(e, t, p));
                assert(n1.stored(e, f, t, p, offset as int, buf@));
                lemma_written(n0, n1, *self, o, e, f, *sb, s, t, p, offset as int, buf@);
                assert(self.written(n0, o, *sb, s, t, p, offset as int, buf@));
            }
        }
        Ok(buf.len())
    }
}

proof fn lemma_stored<D: BlockDevice>(
    n: Fat32Inode,
    o: Fat32SuperBlock<D>,
    c: Fat32SuperBlock<D>,
    w: Fat32SuperBlock<D>,
    f: Fat32SuperBlock<D>,
    t: Seq<u32>,
    p: Seq<u32>,
    offset: int,
    data: Seq<u8>,
)
    requires
        n.placed(o, t, p),
        t.len() > 0,
        c.quiet_but_chains(o),
        c.chains() == o.chains().insert(n.first_clus, t),
        w.wrote_data(c),
        c.is_storable(t),
        w.chain_stored(c, t, offset, data, n.size as int),
        f.quiet(w),
        f.written_back(),
    ensures
        n.stored(o, f, t, p, offset, data),
{
    lemma_same_placed(n, o, c, t, p);
    w.lemma_wrote_data(c);
    assert forall|x: int| o.has_entry(x) implies #[trigger] f.entry(x) == o.entry(x) by {
        assert(c.has_entry(x) && w.has_entry(x));
        assert(c.entry(x) == o.entry(x));
        assert(w.entry(x) == c.entry(x));
    }
    assert forall|x: int|
        2 <= x < 0x1_0000_0000 && !allocator::among(t, t.len() as int, x) implies #[trigger] f.data(
        x,
    ) == o.data(x) by {
        c.lemma_data_same(o, x);
        lemma_chain_only_data(c, w, t, x);
        f.lemma_data_same(w, x);
    }
    if !n.is_unlinked(o) {
        assert forall|j: int| 0 <= j < p.len() implies f.data(#[trigger] p[j] as int) == o.data(
            p[j] as int,
        ) by {
            assert(o.is_cluster(p[j] as int));
            if allocator::among(t, t.len() as int, p[j] as int) {
                let k = choose|k: int| 0 <= k < t.len() && #[trigger] t[k] == p[j] as int;
                assert(t[k] != p[j]);
            }
        }
    }
    lemma_placed_kept(n, o, f, t, p);
    assert forall|k: int| #![trigger t[k]] 0 <= k < t.len() implies f.data(t[k] as int) == w.data(
        t[k] as int,
    ) by {
        f.lemma_data_same(w, t[k] as int);
    }
    lemma_bytes_same(w, f, t);
    assert forall|k: int| #![trigger t[k]] 0 <= k < t.len() implies c.data(t[k] as int) == o.data(
        t[k] as int,
    ) by {
        c.lemma_data_same(o, t[k] as int);
    }
    lemma_bytes_same(o, c, t);
    assert forall|q: int| 0 <= q < t.len() * o.bpb.byts_per_clus implies #[trigger] f.chain_byte(
        t,
        q,
    ) == o.stored_byte(t, offset, data, n.size as int, q) by {
        assert(f.chain_byte(t, q) == w.chain_byte(t, q));
        assert(w.chain_byte(t, q) == c.stored_byte(t, offset, data, n.size as int, q));
        assert(c.chain_byte(t, q) == o.chain_byte(t, q));
    }
}

impl<D: BlockDevice> Fat32SuperBlock<D> {
    /// From `f`, at most the clusters of `p`, which are none of `t`, have changed.
    pub open spec fn kept_but(self, f: Self, t: Seq<u32>, p: Seq<u32>) -> bool {
        &&& self.same_rest(f)
        &&& self.same_table(f)
        &&& forall|k: int| #![trigger t[k]]
            0 <= k < t.len() ==> self.data(t[k] as int) == f.data(t[k] as int)
        &&& forall|x: int|
            2 <= x < 0x1_0000_0000 && !allocator::among(p, p.len() as int, x)
                ==> #[trigger] self.data(x) == f.data(x)
    }
}

/// Recording a new size leaves the file placed.
pub(crate) proof fn lemma_size_written<D: BlockDevice>(
    n1: Fat32Inode,
    n: Fat32Inode,
    f: Fat32SuperBlock<D>,
    u: Fat32SuperBlock<D>,
    t: Seq<u32>,
    p: Seq<u32>,
)
    requires
        n1.placed(f, t, p),
        n.same_file(n1),
        n.first_clus == n1.first_clus,
        n1.is_unlinked(f) ==> u == f,
        !n1.is_unlinked(f) ==> n.meta_written(f, u, p, None, Some(n.size)),
    ensures
        n.placed(u, t, p),
        u.kept_but(f, t, p),
        !n1.is_unlinked(f) ==> u.told(f, p, n1.entry_name@, None, Some(n.size)),
{
    if !n1.is_unlinked(f) {
        let (k, i) = f.locate(p, 0, n.entry_name@)->0;
        f.lemma_located(p, 0, n.entry_name@);
        u.lemma_told(f, p, n.entry_name@, None, Some(n.size));
        u.lemma_told_is_stated(f, p, n.entry_name@, None, Some(n.size));
        if u.alloc_bitmap is Some {
            let b = u.alloc_bitmap->0;
            assert forall|j: int| 0 <= j < u.bpb.total_clus implies #[trigger] b.bit(j) == (u.entry(
                j + 2,
            ) != 0) by {
                assert(f.has_entry(j + 2));
                assert(u.entry(j + 2) == f.entry(j + 2));
                let fb = f.alloc_bitmap->0;
                assert(fb.bit(j) == (f.entry(j + 2) != 0));
            }
        }
        lemma_chain_same(f, u, n.parent_clus as int, p);
        if n.first_clus != 0 {
            lemma_chain_same(f, u, n.first_clus as int, t);
            if u.chains().contains_key(n.first_clus) {
                let c = u.chains()[n.first_clus];
                assert(f.is_chain(n.first_clus as int, c));
                f.lemma_chain_unique(n.first_clus as int, c, t);
            }
        }
        assert forall|j: int| #![trigger t[j]] 0 <= j < t.len() implies u.data(t[j] as int)
            == f.data(t[j] as int) by {
            assert(f.is_cluster(t[j] as int));
            assert(t[j] != p[k]);
        }
        assert forall|x: int|
            2 <= x < 0x1_0000_0000 && !allocator::among(
                p,
                p.len() as int,
                x,
            ) implies #[trigger] u.data(x) == f.data(x) by {
            assert(p[k] != x);
        }
    }
}

proof fn lemma_written<D: BlockDevice>(
    n0: Fat32Inode,
    n1: Fat32Inode,
    n: Fat32Inode,
    o: Fat32SuperBlock<D>,
    e: Fat32SuperBlock<D>,
    f: Fat32SuperBlock<D>,
    u: Fat32SuperBlock<D>,
    s: Seq<u32>,
    t: Seq<u32>,
    p: Seq<u32>,
    offset: int,
    data: Seq<u8>,
)
    requires
        n0.placed(o, s, p),
        n1.size == n0.size,
        n1.prepared(o, e, s, t, p, offset, offset + data.len()),
        n1.stored(e, f, t, p, offset, data),
        n.placed(u, t, p),
        u.kept_but(f, t, p),
        u.written_back(),
        n.first_clus == n1.first_clus,
        n1.same_file(n0),
        n0.first_clus != 0 ==> n1.first_clus == n0.first_clus,
        n0.first_clus != 0 && !n0.is_unlinked(o) ==> e.same_clusters(o, p),
        n.size == if n0.size < offset + data.len() {
            offset + data.len()
        } else {
            n0.size as int
        },
        !n0.is_unlinked(o) ==> if n0.size < offset + data.len() {
            u.told(f, p, n0.entry_name@, None, Some(n.size))
        } else {
            u.same_clusters(f, p)
        },
    ensures
        n.written(n0, o, u, s, t, p, offset, data),
{
    let cs = o.bpb.byts_per_clus as int;
    let end = offset + data.len();
    lemma_bytes_same(f, u, t);
    u.lemma_chains_agree(e, o, n.first_clus, t);
    if !n0.is_unlinked(o) {
        assert forall|j: int| 0 <= j < p.len() implies f.data(#[trigger] p[j] as int) == e.data(
            p[j] as int,
        ) by {
            assert(f.is_cluster(p[j] as int));
            assert(!allocator::among(t, t.len() as int, p[j] as int)) by {
                if allocator::among(t, t.len() as int, p[j] as int) {
                    let k = choose|k: int| 0 <= k < t.len() && #[trigger] t[k] == p[j] as int;
                    assert(t[k] != p[j]);
                }
            }
            assert(f.data(p[j] as int) == e.data(p[j] as int));
        }
        let (c, size) = if s.len() == 0 {
            (Some(n1.first_clus), Some(n1.size))
        } else {
            (None, None)
        };
        assert(e.told(o, p, n0.entry_name@, c, size));
        assert(f.told(o, p, n0.entry_name@, c, size));
        if n0.size < end {
            u.lemma_told_again(f, o, p, n0.entry_name@, c, size, n.size);
        } else {
            assert(u.told(o, p, n0.entry_name@, c, size));
        }
    }
    if n0.first_clus != 0 && !n0.is_unlinked(o) {
        assert(f.same_clusters(o, p));
        assert(u.kept_but(f, t, p));
    }
    assert forall|q: int| 0 <= q < t.len() * o.bpb.byts_per_clus implies #[trigger] u.chain_byte(
        t,
        q,
    ) == o.written_byte(s.len() as int, t, n0.size as int, offset, data, q) by {
        assert(u.chain_byte(t, q) == f.chain_byte(t, q));
        assert(f.chain_byte(t, q) == e.stored_byte(t, offset, data, n1.size as int, q));
        e.lemma_chain_pos(t, q);
        let k = q / cs;
        assert(e.data(t[k] as int) == (if s.len() <= k && !extend::is_covered(
            k,
            cs,
            offset,
            end,
        ) {
            grow::zeros(cs)
        } else {
            o.data(t[k] as int)
        }));
    }
    assert forall|x: int| #[trigger]
        o.is_cluster(x) && o.entry(x) != 0 && !allocator::among(s, s.len() as int, x)
            && !allocator::among(p, p.len() as int, x) implies u.entry(x) == o.entry(x) && u.data(x)
        == o.data(x) by {
        assert(e.entry(x) == o.entry(x) && e.data(x) == o.data(x));
        assert(e.has_entry(x) && f.has_entry(x));
        assert(f.entry(x) == e.entry(x));
        assert(u.entry(x) == f.entry(x));
        assert(!allocator::among(t, t.len() as int, x)) by {
            if allocator::among(t, t.len() as int, x) {
                let k = choose|k: int| 0 <= k < t.len() && #[trigger] t[k] == x;
                if k < s.len() {
                    assert(t.take(s.len() as int)[k] == t[k]);
                    assert(s[k] == x);
                } else {
                    assert(o.entry(t[k] as int) == 0);
                }
            }
        }
        assert(f.data(x) == e.data(x));
        assert(u.data(x) == f.data(x));
    }
}

/// The number of clusters that `n` bytes need.
pub open spec fn clusters_for(n: int, cs: int) -> int {
    if n == 0 {
        0
    } else {
        (n - 1) / cs + 1
    }
}

} // verus!
