//! Cutting and growing files.

use vstd::prelude::*;

use crate::blockdriver::traits::BlockDevice;
use crate::fat32::allocator;
use crate::fat32::extend;
use crate::fat32::file_write;
use crate::fat32::grow;
use crate::fat32::inode;
use crate::fat32::inode::Fat32Inode;
use crate::fat32::steps;
use crate::fat32::superblock::{Fat32SuperBlock, EOC_MARKER};
use crate::vfs::{FileType, VfsError};

verus! {

/// The first cluster of a file whose clusters were `s` and are now `t`; 0 where it had and
/// has none.
pub open spec fn first_of(s: Seq<u32>, t: Seq<u32>) -> u32 {
    if s.len() > 0 {
        s[0]
    } else if t.len() > 0 {
        t[0]
    } else {
        0
    }
}

impl<D: BlockDevice> Fat32SuperBlock<D> {
    /// An extension stays one while the volume stays the same.
    proof fn lemma_extended_quiet(self, e: Self, o: Self, s: Seq<u32>, v: Seq<u32>)
        requires
            o.bpb.wf(),
            e.extended(o, s, v, 0, 0),
            self.quiet(e),
        ensures
            self.extended(o, s, v, 0, 0),
    {
        let t = s + v;
        crate::fat32::dir_write::lemma_tracked_quiet(e, self);
        file_write::lemma_chain_same(e, self, t[0] as int, t);
        assert forall|x: int|
            o.has_entry(x) && !allocator::among(v, v.len() as int, x) && !(s.len() > 0 && x
                == s.last()) implies #[trigger] self.entry(x) == o.entry(x) by {
            assert(e.has_entry(x));
            assert(e.entry(x) == o.entry(x));
        }
        assert forall|j: int| #![trigger v[j]] 0 <= j < v.len() implies self.data(v[j] as int)
            == e.data(v[j] as int) by {
            self.lemma_data_same(e, v[j] as int);
        }
        assert forall|x: int|
            2 <= x < 0x1_0000_0000 && !allocator::among(v, v.len() as int, x) implies #[trigger] self.data(
            x,
        ) == o.data(x) by {
            self.lemma_data_same(e, x);
            assert(e.data(x) == o.data(x));
        }
    }

    /// A chain that has grown was extended.
    proof fn lemma_grown_extended(self, o: Self, s: Seq<u32>, v: Seq<u32>)
        requires
            self.same_but_alloc(o),
            s.len() > 0,
            v.len() > 0,
            self.grown(o, s, v),
        ensures
            self.extended(o, s, v, 0, 0),
    {
        let t = s + v;
        assert(t[0] == s[0]);
        assert forall|k: int| 0 <= k < v.len() implies o.is_cluster(#[trigger] v[k] as int)
            && o.entry(v[k] as int) == 0 by {
            assert(t[s.len() + k] == v[k]);
            assert(self.is_cluster(t[s.len() + k] as int));
        }
        assert forall|j: int| #![trigger v[j]] 0 <= j < v.len() implies !extend::is_covered(
            s.len() + j,
            o.bpb.byts_per_clus as int,
            0,
            0,
        ) by {
            assert((s.len() + j) * o.bpb.byts_per_clus >= 0) by (nonlinear_arith)
                requires
                    s.len() + j >= 0,
                    o.bpb.byts_per_clus >= 0,
            ;
        }
    }

    /// From `o`, the clusters `v`, which were free, were taken and filled with zeros. They
    /// stand behind the clusters `s` of a file, or are a chain of their own where it has
    /// none. Nothing else has changed, but the file's chain is no longer remembered.
    pub open spec fn only_took(self, o: Self, s: Seq<u32>, v: Seq<u32>) -> bool {
        &&& self.tracked_ok()
        &&& self.same_places(o)
        &&& self.free_clus_count as int == (o.free_clus_count - v.len()) % 0x1_0000_0000
        &&& self.searches_behind(o, v, v.len() > 0)
        &&& self.chains() == if s.len() > 0 {
            o.chains().remove(s[0])
        } else {
            o.chains()
        }
        &&& s.len() + v.len() > 0 ==> self.is_file_chain((s + v)[0] as int, s + v)
        &&& forall|k: int| 0 <= k < v.len() ==> o.entry(#[trigger] v[k] as int) == 0
        &&& forall|x: int|
            o.has_entry(x) && !allocator::among(v, v.len() as int, x) && !(s.len() > 0 && x
                == s.last()) ==> #[trigger] self.entry(x) == o.entry(x)
        &&& forall|k: int|
            0 <= k < v.len() ==> self.data(#[trigger] v[k] as int) == grow::zeros(
                o.bpb.byts_per_clus as int,
            )
        &&& forall|x: int|
            2 <= x < 0x1_0000_0000 && !allocator::among(v, v.len() as int, x)
                ==> #[trigger] self.data(x) == o.data(x)
    }

    /// In a volume that is the same, nothing was taken.
    proof fn lemma_took_none(self, o: Self)
        requires
            o.tracked_ok(),
            self.quiet(o),
        ensures
            self.only_took(o, Seq::empty(), Seq::empty()),
    {
        crate::fat32::dir_write::lemma_tracked_quiet(o, self);
        assert forall|x: int| 2 <= x < 0x1_0000_0000 implies #[trigger] self.data(x) == o.data(x) by {
            self.lemma_data_same(o, x);
        }
    }

    /// A chain of new clusters was taken.
    proof fn lemma_took_chain(self, o: Self, v: Seq<u32>)
        requires
            self.extended(o, Seq::empty(), v, 0, 0),
        ensures
            self.only_took(o, Seq::empty(), v),
    {
        let none = Seq::<u32>::empty();
        let cs = o.bpb.byts_per_clus as int;
        assert forall|k: int| 0 <= k < v.len() implies self.data(#[trigger] v[k] as int)
            == grow::zeros(cs) by {
            assert(!extend::is_covered(none.len() + k, cs, 0, 0)) by {
                assert((none.len() + k) * cs >= 0) by (nonlinear_arith)
                    requires
                        none.len() + k >= 0,
                        cs >= 0,
                ;
            }
        }
    }

    /// What was taken was taken from a volume that is the same.
    proof fn lemma_took_from(self, c: Self, o: Self, s: Seq<u32>, v: Seq<u32>)
        requires
            o.sound(),
            c.same_places(o),
            c.free_clus_count == o.free_clus_count,
            c.next_alloc_hint == o.next_alloc_hint,
            if s.len() > 0 {
                c.chains_but(o, s[0])
            } else {
                c.chains() == o.chains()
            },
            c.same_data(o),
            c.same_table(o),
            self.only_took(c, s, v),
        ensures
            self.only_took(o, s, v),
    {
        assert forall|k: int| 0 <= k < v.len() implies o.entry(#[trigger] v[k] as int) == 0 by {
            let t = s + v;
            assert(t[s.len() + k] == v[k]);
            assert(self.is_cluster(t[s.len() + k] as int));
            assert(o.has_entry(v[k] as int));
            assert(c.entry(v[k] as int) == o.entry(v[k] as int));
        }
        assert forall|x: int|
            o.has_entry(x) && !allocator::among(v, v.len() as int, x) && !(s.len() > 0 && x
                == s.last()) implies #[trigger] self.entry(x) == o.entry(x) by {
            assert(c.has_entry(x));
            assert(c.entry(x) == o.entry(x));
        }
        assert forall|x: int|
            2 <= x < 0x1_0000_0000 && !allocator::among(
                v,
                v.len() as int,
                x,
            ) implies #[trigger] self.data(x) == o.data(x) by {
            c.lemma_data_same(o, x);
            assert(self.data(x) == c.data(x));
        }
    }

    /// Makes a chain of `count` clusters of zeros.
    fn new_chain(&mut self, count: u32) -> (r: Result<u32, VfsError>)
        requires
            old(self).inv(),
            count > 0,
        ensures
            final(self).inv(),
            final(self).same_places(*old(self)),
            match r {
                Ok(c) => old(self).tracked_ok() ==> exists|v: Seq<u32>|
                    v.len() == count && v[0] == c && #[trigger] final(self).extended(
                        *old(self),
                        Seq::empty(),
                        v,
                        0,
                        0,
                    ),
                Err(VfsError::NoSpace) => old(self).tracked_ok() ==> old(self).short_of(
                    count as int,
                ) && (final(self).faults() == old(self).faults() ==> exists|v: Seq<u32>|
                    v.len() < count && #[trigger] final(self).only_took(
                        *old(self),
                        Seq::empty(),
                        v,
                    )),
                Err(e) => e == VfsError::IOError && (old(self).tracked_ok() ==> final(self).faults()
                    > old(self).faults()),
            },
            old(self).faults() <= final(self).faults(),
    {
        let ghost o = *self;
        let c: u32 = match self.alloc_cluster() {
            Ok(c) => c,
            Err(e) => {
                proof {
                    if o.tracked_ok() && e == VfsError::NoSpace && self.faults() == o.faults() {
                        self.lemma_took_none(o);
                    }
                }
                return Err(e);
            },
        };
        let ghost a = *self;
        match self.zero_cluster(c) {
            Ok(_) => {},
            Err(e) => return Err(e),
        }
        let ghost z = *self;
        let ghost one = seq![c];
        proof {
            if o.tracked_ok() {
                lemma_one_cluster(o, a, z, c);
            }
        }
        if count > 1 {
            match self.extend_chain(c, count - 1) {
                Ok(_) => {},
                Err(e) => {
                    proof {
                        if o.tracked_ok() {
                            assert(z.is_file_chain(c as int, one));
                            if e == VfsError::NoSpace {
                                lemma_short_before(o, z, c, count - 1);
                                if self.faults() == o.faults() {
                                    let more = choose|more: Seq<u32>|
                                        more.len() < count - 1 && #[trigger] self.grown(
                                            z,
                                            one,
                                            more,
                                        );
                                    lemma_grown_from_one(o, z, *self, c, more);
                                    self.lemma_took_chain(o, one + more);
                                }
                            }
                        }
                    }
                    return Err(e);
                },
            }
            proof {
                if o.tracked_ok() {
                    let g = *self;
                    let none = Seq::<u32>::empty();
                    assert(none + one =~= one);
                    assert(z.is_file_chain(c as int, one));
                    let more = choose|more: Seq<u32>|
                        more.len() == count - 1 && #[trigger] g.grown(z, one, more);
                    lemma_grown_from_one(o, z, g, c, more);
                    assert((one + more)[0] == c);
                }
            }
        }
        Ok(c)
    }
}

/// A cluster that was allocated and cleared is a chain of its own.
proof fn lemma_one_cluster<D: BlockDevice>(
    o: Fat32SuperBlock<D>,
    a: Fat32SuperBlock<D>,
    z: Fat32SuperBlock<D>,
    c: u32,
)
    requires
        o.tracked_ok(),
        a.allocated(o, seq![c]),
        o.is_choice(1, seq![c]),
        z.cluster_written(a, c as int, grow::zeros(o.bpb.byts_per_clus as int), true),
        z.bpb == o.bpb,
    ensures
        z.extended(o, Seq::empty(), seq![c], 0, 0),
        z.is_file_chain(c as int, seq![c]),
{
    let v = seq![c];
    let none = Seq::<u32>::empty();
    a.lemma_allocated(o, v);
    assert(v[0] == c);
    assert(none + v =~= v);
    assert(o.is_cluster(c as int));
    assert(allocator::among(v, 1, c as int));
    assert(z.entry(c as int) == a.entry(c as int)) by {
        assert(a.has_entry(c as int));
    }
    assert(v.last() == c);
    assert(z.is_file_chain(c as int, v));
    assert forall|x: int| o.has_entry(x) && !allocator::among(v, 1, x) implies #[trigger] z.entry(x)
        == o.entry(x) by {
        assert(a.has_entry(x));
        assert(a.entry(x) == o.entry(x));
    }
    assert forall|x: int|
        2 <= x < 0x1_0000_0000 && !allocator::among(v, 1, x) implies #[trigger] z.data(x) == o.data(
        x,
    ) by {
        a.lemma_data_same(o, x);
        assert(x != c);
    }
    if z.alloc_bitmap is Some {
        let b = z.alloc_bitmap->0;
        assert forall|i: int| 0 <= i < z.bpb.total_clus implies #[trigger] b.bit(i) == (z.entry(
            i + 2,
        ) != 0) by {
            assert(a.has_entry(i + 2));
            assert(z.entry(i + 2) == a.entry(i + 2));
            let ab = a.alloc_bitmap->0;
            assert(ab.bit(i) == (a.entry(i + 2) != 0));
        }
    }
    assert forall|j: int| #![trigger v[j]] 0 <= j < v.len() implies !extend::is_covered(
        none.len() + j,
        o.bpb.byts_per_clus as int,
        0,
        0,
    ) by {}
}

/// Too few clusters are left for what was to follow the first one.
proof fn lemma_short_before<D: BlockDevice>(
    o: Fat32SuperBlock<D>,
    z: Fat32SuperBlock<D>,
    c: u32,
    count: int,
)
    requires
        o.tracked_ok(),
        z.extended(o, Seq::empty(), seq![c], 0, 0),
        z.short_of(count),
    ensures
        o.short_of(count + 1),
{
    let total = o.bpb.total_clus as int;
    if total > 0 {
        let free = o.free_list();
        let left = z.free_list();
        allocator::lemma_free_prefix(o.taken(), total, o.search_start(), total);
        allocator::lemma_free_prefix(z.taken(), total, z.search_start(), total);
        free.unique_seq_to_set();
        let rest = free.to_set().remove(c - 2);
        let kept = rest.to_seq();
        vstd::seq_lib::seq_to_set_is_finite(free);
        rest.lemma_to_seq_to_set_id();
        lemma_listed_once(rest);
        assert forall|j: int| 0 <= j < kept.len() implies 0 <= #[trigger] kept[j] < total && !(
        z.taken())(kept[j]) by {
            let x = kept[j];
            assert(kept.to_set().contains(x));
            assert(rest.contains(x));
            assert(free.to_set().contains(x));
            let i = choose|i: int| 0 <= i < free.len() && free[i] == x;
            assert(!(o.taken())(x) && 0 <= x < total);
            assert(o.entry(x + 2) == 0) by {
                if o.alloc_bitmap is Some {
                    assert((o.alloc_bitmap->0).bit(x) == (o.entry(x + 2) != 0));
                }
            }
            if allocator::among(seq![c], 1, x + 2) {
                let k = choose|k: int| 0 <= k < 1 && #[trigger] seq![c][k] == x + 2;
            }
            assert(o.has_entry(x + 2));
            assert(z.entry(x + 2) == 0);
            if z.alloc_bitmap is Some {
                assert((z.alloc_bitmap->0).bit(x) == (z.entry(x + 2) != 0));
            }
        }
        allocator::lemma_free_count(z.taken(), total, z.search_start(), kept);
    }
}

/// A set can be listed without a repetition.
proof fn lemma_listed_once(s: Set<int>)
    requires
        s.finite(),
    ensures
        s.to_seq().no_duplicates(),
        s.to_seq().len() == s.len(),
    decreases s.len(),
{
    if s.len() > 0 {
        let x = s.choose();
        assert(s.contains(x));
        lemma_listed_once(s.remove(x));
        s.remove(x).lemma_to_seq_to_set_id();
        let t = s.remove(x).to_seq();
        assert forall|i: int| 0 <= i < t.len() implies #[trigger] t[i] != x by {
            assert(t.to_set().contains(t[i]));
        }
    }
}

/// Growing a chain of one new cluster makes a chain of new clusters.
proof fn lemma_grown_from_one<D: BlockDevice>(
    o: Fat32SuperBlock<D>,
    z: Fat32SuperBlock<D>,
    g: Fat32SuperBlock<D>,
    c: u32,
    more: Seq<u32>,
)
    requires
        o.tracked_ok(),
        z.extended(o, Seq::empty(), seq![c], 0, 0),
        g.same_but_alloc(z),
        g.grown(z, seq![c], more),
    ensures
        g.extended(o, Seq::empty(), seq![c] + more, 0, 0),
{
    let one = seq![c];
    let v = one + more;
    let none = Seq::<u32>::empty();
    assert(none + v =~= v);
    assert(one.last() == c);
    assert(v[0] == c);
    assert(none + one =~= one);
    assert(one[0] == c);
    assert(z.entry(c as int) != 0) by {
        grow::lemma_chain_taken(z, c as int, one, 0);
    }
    let cs = o.bpb.byts_per_clus as int;
    assert forall|k: int| 0 <= k < v.len() implies o.is_cluster(#[trigger] v[k] as int) && o.entry(
        v[k] as int,
    ) == 0 && g.data(v[k] as int) == grow::zeros(cs) by {
        assert(g.is_cluster(v[k] as int));
        if k == 0 {
            assert(one[0] == v[k]);
            if allocator::among(more, more.len() as int, c as int) {
                let j = choose|j: int| 0 <= j < more.len() && #[trigger] more[j] == c;
                assert(z.entry(more[j] as int) == 0);
            }
            assert(g.data(c as int) == z.data(c as int));
            assert(!extend::is_covered(0, cs, 0, 0));
        } else {
            assert(v[k] == more[k - 1]);
            assert(z.entry(more[k - 1] as int) == 0);
            if allocator::among(one, 1, v[k] as int) {
                let j = choose|j: int| 0 <= j < 1 && #[trigger] one[j] == v[k];
            }
            assert(z.entry(v[k] as int) == o.entry(v[k] as int));
        }
    }
    assert forall|j: int| #![trigger v[j]] 0 <= j < v.len() implies !extend::is_covered(
        none.len() + j,
        cs,
        0,
        0,
    ) by {
        assert(j * cs >= 0) by (nonlinear_arith)
            requires
                j >= 0,
                cs >= 0,
        ;
    }
    assert forall|x: int| !allocator::among(v, v.len() as int, x) implies !#[trigger] allocator::among(
        more,
        more.len() as int,
        x,
    ) && x != c by {
        if allocator::among(more, more.len() as int, x) {
            let j = choose|j: int| 0 <= j < more.len() && #[trigger] more[j] == x;
            assert(v[j + 1] == x);
        }
        if x == c {
            assert(v[0] == x);
        }
    }
    assert forall|x: int| x != c implies !#[trigger] allocator::among(one, 1, x) by {
        if allocator::among(one, 1, x) {
            let j = choose|j: int| 0 <= j < 1 && #[trigger] one[j] == x;
        }
    }
    assert forall|x: int|
        o.has_entry(x) && !allocator::among(v, v.len() as int, x) && !(none.len() > 0 && x
            == none.last()) implies #[trigger] g.entry(x) == o.entry(x) by {
        assert(!allocator::among(more, more.len() as int, x) && x != c);
        assert(!allocator::among(one, 1, x));
        assert(z.has_entry(x));
        assert(z.entry(x) == o.entry(x));
    }
    assert forall|x: int|
        2 <= x < 0x1_0000_0000 && !allocator::among(v, v.len() as int, x) implies #[trigger] g.data(
        x,
    ) == o.data(x) by {
        assert(!allocator::among(more, more.len() as int, x) && x != c);
        assert(!allocator::among(one, 1, x));
        assert(z.data(x) == o.data(x));
    }
}

impl Fat32Inode {
    /// From `o` to `f`, the file `n`, whose clusters were `s`, was given the length `len` and
    /// the clusters `t`: the first ones of `s`, or `s` and new ones of zeros. Clusters that
    /// are no longer needed are free, and what belongs to other files is as it was, as are
    /// places, handles and numbers. Where the number of clusters changes, the table has been
    /// written back, and the chain is no longer remembered; where it stays, the directory is
    /// not told the new length.
    pub open spec fn truncated<D: BlockDevice>(
        self,
        o: Fat32SuperBlock<D>,
        f: Fat32SuperBlock<D>,
        s: Seq<u32>,
        t: Seq<u32>,
        p: Seq<u32>,
        len: int,
    ) -> bool {
        let cs = o.bpb.byts_per_clus as int;
        &&& self.size == len
        &&& f.sound()
        &&& f.same_places(o)
        &&& f.free_clus_count as int == (o.free_clus_count + s.len() - t.len()) % 0x1_0000_0000
        &&& f.searches_behind(o, t, s.len() < t.len())
        &&& f.chains_but(o, first_of(s, t))
        &&& t.len() != s.len() ==> !f.chains().contains_key(first_of(s, t)) && f.written_back()
        &&& t.len() == file_write::clusters_for(len, cs)
        &&& t.len() <= s.len() ==> t == s.take(t.len() as int)
        &&& s.len() <= t.len() ==> s == t.take(s.len() as int)
        &&& self.placed(f, t, p)
        &&& !self.is_unlinked(o) ==> f.told(
            o,
            p,
            self.entry_name@,
            if (s.len() == 0) != (t.len() == 0) {
                Some(self.first_clus)
            } else {
                None
            },
            if t.len() != s.len() {
                Some(self.size)
            } else {
                None
            },
        )
        &&& t.len() == s.len() ==> f.same_table(o) && f.same_data(o)
        &&& forall|k: int| #![trigger t[k]]
            0 <= k < t.len() ==> f.data(t[k] as int) == (if k < s.len() {
                o.data(t[k] as int)
            } else {
                grow::zeros(cs)
            })
        &&& forall|k: int| s.len() <= k < t.len() ==> o.entry(#[trigger] t[k] as int) == 0
        &&& forall|k: int| t.len() <= k < s.len() ==> f.entry(#[trigger] s[k] as int) == 0
        &&& f.others_kept(o, s, p)
    }
}

/// Recording no clusters, and freeing them, empties the file.
proof fn lemma_emptied<D: BlockDevice>(
    n0: Fat32Inode,
    n: Fat32Inode,
    o: Fat32SuperBlock<D>,
    u: Fat32SuperBlock<D>,
    q: Fat32SuperBlock<D>,
    f: Fat32SuperBlock<D>,
    s: Seq<u32>,
    p: Seq<u32>,
)
    requires
        n0.placed(o, s, p),
        n0.first_clus != 0,
        n.same_file(n0),
        n.first_clus == 0,
        n.size == 0,
        n0.is_unlinked(o) ==> u == o,
        !n0.is_unlinked(o) ==> n0.meta_written(o, u, p, Some(0), Some(0)),
        u.same_rest(o),
        q.quiet(u),
        f.chain_released(q, n0.first_clus),
        f.same_places(q),
        f.written_back(),
    ensures
        n.truncated(o, f, s, Seq::empty(), p, 0),
{
    let first = n0.first_clus as int;
    let t = Seq::<u32>::empty();
    assert(s.take(0) =~= t);
    assert(o.is_cluster(s[0] as int));
    f.lemma_chains_remove(q, o, n0.first_clus);
    assert(u.sound() && u.same_table(o) && u.bpb == o.bpb && u.alloc_bitmap == o.alloc_bitmap);
    assert forall|x: int| o.has_entry(x) implies #[trigger] q.entry(x) == o.entry(x) by {
        assert(u.has_entry(x));
        assert(u.entry(x) == o.entry(x));
    }
    file_write::lemma_chain_same(o, q, first, s);
    q.lemma_chain_is_walk(first, s);
    assert(f.freed(q, s, s.len() as int));
    if q.alloc_bitmap is Some {
        let b = q.alloc_bitmap->0;
        assert forall|i: int| 0 <= i < q.bpb.total_clus implies #[trigger] b.bit(i) == (q.entry(
            i + 2,
        ) != 0) by {
            assert(o.has_entry(i + 2));
            assert(q.entry(i + 2) == o.entry(i + 2));
            let ob = o.alloc_bitmap->0;
            assert(ob.bit(i) == (o.entry(i + 2) != 0));
        }
    }
    steps::lemma_freed_tracked(q, f, s);
    assert forall|k: int| 0 <= k < s.len() implies f.entry(#[trigger] s[k] as int) == 0 by {
        assert(q.is_cluster(s[k] as int));
        assert(allocator::among(s, s.len() as int, s[k] as int));
        assert(q.has_entry(s[k] as int));
    }
    if !n0.is_unlinked(o) {
        let (k0, i0) = o.locate(p, 0, n0.entry_name@)->0;
        o.lemma_located(p, 0, n0.entry_name@);
        u.lemma_told(o, p, n0.entry_name@, Some(0), Some(0));
        u.lemma_told_is_stated(o, p, n0.entry_name@, Some(0), Some(0));
        u.lemma_located(p, 0, n0.entry_name@);
        assert forall|j: int| 0 <= j < p.len() implies f.entry(#[trigger] p[j] as int) == o.entry(
            p[j] as int,
        ) && f.data(p[j] as int) == u.data(p[j] as int) by {
            assert(o.is_cluster(p[j] as int));
            assert(q.has_entry(p[j] as int));
            assert(q.entry(p[j] as int) == o.entry(p[j] as int));
            if allocator::among(s, s.len() as int, p[j] as int) {
                let k = choose|k: int| 0 <= k < s.len() && #[trigger] s[k] == p[j] as int;
                assert(s[k] != p[j]);
            }
            q.lemma_data_same(u, p[j] as int);
            f.lemma_data_same(q, p[j] as int);
        }
        grow::lemma_chain_kept(o, f, n0.parent_clus as int, p);
        f.lemma_locate_same(u, p, 0, n0.entry_name@);
    }
    assert forall|x: int| #[trigger]
        o.is_cluster(x) && o.entry(x) != 0 && !allocator::among(s, s.len() as int, x)
            && !allocator::among(p, p.len() as int, x) implies f.entry(x) == o.entry(x) && f.data(x)
        == o.data(x) by {
        assert(o.has_entry(x) && q.has_entry(x));
        assert(q.entry(x) == o.entry(x));
        q.lemma_data_same(u, x);
        f.lemma_data_same(q, x);
        if !n0.is_unlinked(o) {
            let (k0, i0) = o.locate(p, 0, n0.entry_name@)->0;
            o.lemma_located(p, 0, n0.entry_name@);
            assert(p[k0] != x);
        }
    }
}

/// Cutting a chain that is not remembered leaves the file placed.
proof fn lemma_cut_placed<D: BlockDevice>(
    n: Fat32Inode,
    o: Fat32SuperBlock<D>,
    c: Fat32SuperBlock<D>,
    i: Fat32SuperBlock<D>,
    s: Seq<u32>,
    p: Seq<u32>,
    keep: int,
)
    requires
        n.placed(o, s, p),
        n.first_clus != 0,
        0 < keep < s.len(),
        c.cut(o, s, keep),
        c.same_but_alloc(o),
        i.quiet(c),
        !o.chains().contains_key(n.first_clus),
    ensures
        n.placed(i, s.take(keep), p),
        i.same_data(o),
        forall|k: int| keep <= k < s.len() ==> i.entry(#[trigger] s[k] as int) == 0,
        i.others_kept(o, s, p),
        i.same_places(o),
        i.free_clus_count as int == (o.free_clus_count + s.len() - keep) % 0x1_0000_0000,
        i.next_alloc_hint == o.next_alloc_hint,
{
    let t = s.take(keep);
    let rest = s.skip(keep);
    let first = n.first_clus as int;
    o.lemma_chain_distinct(first, s);
    i.lemma_same_data_trans(c, o);
    assert forall|x: int| o.has_entry(x) implies #[trigger] i.entry(x) == c.entry(x) by {
        assert(c.has_entry(x));
        assert(i.entry(x) == c.entry(x));
    }
    assert forall|k: int| 0 <= k < s.len() implies #[trigger] i.entry(s[k] as int) == (if k
        == keep - 1 {
        EOC_MARKER as int
    } else if k >= keep {
        0
    } else {
        o.entry(s[k] as int)
    }) by {
        assert(o.is_cluster(s[k] as int));
        assert(o.has_entry(s[k] as int));
        if k >= keep {
            assert(rest[k - keep] == s[k]);
            assert(allocator::among(rest, rest.len() as int, s[k] as int));
            assert(s[k] != s[keep - 1]);
        } else {
            if allocator::among(rest, rest.len() as int, s[k] as int) {
                let j = choose|j: int| 0 <= j < rest.len() && #[trigger] rest[j] == s[k] as int;
                assert(rest[j] == s[keep + j]);
            }
        }
    }
    assert(t.last() == s[keep - 1]);
    assert forall|k: int| 0 <= k < t.len() implies i.is_cluster(#[trigger] t[k] as int)
        && i.has_entry(t[k] as int) && t[k] < EOC_MARKER by {
        assert(t[k] == s[k]);
        assert(o.is_cluster(s[k] as int));
    }
    assert forall|k: int| 0 <= k < t.len() - 1 implies #[trigger] i.entry(t[k] as int) == t[k + 1] by {
        assert(t[k] == s[k] && t[k + 1] == s[k + 1]);
        assert(o.entry(s[k] as int) == s[k + 1]);
        assert(i.entry(s[k] as int) == o.entry(s[k] as int));
    }
    assert(i.is_file_chain(first, t));
    if i.alloc_bitmap is Some {
        let b = i.alloc_bitmap->0;
        assert forall|j: int| 0 <= j < i.bpb.total_clus implies #[trigger] b.bit(j) == (i.entry(
            j + 2,
        ) != 0) by {
            assert(o.has_entry(j + 2));
            let ob = o.alloc_bitmap->0;
            assert(ob.bit(j) == (o.entry(j + 2) != 0));
            if j + 2 == s[keep - 1] {
                grow::lemma_chain_taken(o, first, s, keep - 1);
                if allocator::among(rest, rest.len() as int, j + 2) {
                    let m = choose|m: int| 0 <= m < rest.len() && #[trigger] rest[m] == j + 2;
                    assert(rest[m] == s[keep + m]);
                }
            }
        }
    }
    if !n.is_unlinked(o) {
        assert forall|j: int| 0 <= j < p.len() implies i.entry(#[trigger] p[j] as int) == o.entry(
            p[j] as int,
        ) && i.data(p[j] as int) == o.data(p[j] as int) by {
            assert(o.is_cluster(p[j] as int));
            assert(o.has_entry(p[j] as int));
            assert(s[keep - 1] != p[j]);
            if allocator::among(rest, rest.len() as int, p[j] as int) {
                let m = choose|m: int| 0 <= m < rest.len() && #[trigger] rest[m] == p[j] as int;
                assert(rest[m] == s[keep + m]);
            }
            i.lemma_data_same(o, p[j] as int);
        }
        grow::lemma_chain_kept(o, i, n.parent_clus as int, p);
        i.lemma_locate_same(o, p, 0, n.entry_name@);
        o.lemma_located(p, 0, n.entry_name@);
        assert forall|a: int, b: int| 0 <= a < t.len() && 0 <= b < p.len() implies #[trigger] t[a]
            != #[trigger] p[b] by {
            assert(t[a] == s[a]);
        }
    }
    assert forall|x: int| #[trigger]
        o.is_cluster(x) && o.entry(x) != 0 && !allocator::among(s, s.len() as int, x)
            && !allocator::among(p, p.len() as int, x) implies i.entry(x) == o.entry(x) && i.data(x)
        == o.data(x) by {
        assert(o.has_entry(x));
        assert(s[keep - 1] != x);
        if allocator::among(rest, rest.len() as int, x) {
            let m = choose|m: int| 0 <= m < rest.len() && #[trigger] rest[m] == x;
            assert(s[keep + m] == x);
        }
        i.lemma_data_same(o, x);
    }
}

/// Forgetting its chain leaves the file placed.
proof fn lemma_forgotten<D: BlockDevice>(
    n: Fat32Inode,
    o: Fat32SuperBlock<D>,
    b: Fat32SuperBlock<D>,
    s: Seq<u32>,
    p: Seq<u32>,
)
    requires
        n.placed(o, s, p),
        n.first_clus != 0,
        b.inv(),
        b.same_but_chains(o),
        b.fat_cache == o.fat_cache,
        b.device == o.device,
        b.chains() == o.chains().remove(n.first_clus),
    ensures
        n.placed(b, s, p),
        b.same_data(o),
        b.same_table(o),
        b.chains_but(o, n.first_clus),
{
    b.lemma_same_source(o);
    assert forall|j: int| 0 <= j < p.len() implies b.data(#[trigger] p[j] as int) == o.data(
        p[j] as int,
    ) by {
        b.lemma_data_same(o, p[j] as int);
    }
    file_write::lemma_placed_kept(n, o, b, s, p);
    b.lemma_chains_remove(o, o, n.first_clus);
}

/// A length that needs no other clusters is one of the file alone.
proof fn lemma_length_only<D: BlockDevice>(
    n0: Fat32Inode,
    n: Fat32Inode,
    o: Fat32SuperBlock<D>,
    c: Fat32SuperBlock<D>,
    s: Seq<u32>,
    p: Seq<u32>,
    len: int,
)
    requires
        n0.placed(o, s, p),
        n0.still_placed(o, c, s, p),
        n.same_file(n0),
        n.first_clus == n0.first_clus,
        n.size == len,
        s.len() == file_write::clusters_for(len, o.bpb.byts_per_clus as int),
        n.first_clus == 0 ==> c == o,
    ensures
        n.truncated(o, c, s, s, p, len),
{
    assert(s.take(s.len() as int) =~= s);
    assert((s.len() * o.bpb.byts_per_clus) >= 0) by (nonlinear_arith)
        requires
            s.len() >= 0,
            o.bpb.byts_per_clus >= 0,
    ;
    file_write::lemma_room_enough(o, c, s, p, 0, 0);
    c.lemma_same_clusters(o, p);
    assert(n.placed(c, s, p));
}

/// Telling the directory the new length leaves what a change of the chain came to.
proof fn lemma_length_written<D: BlockDevice>(
    n: Fat32Inode,
    o: Fat32SuperBlock<D>,
    i: Fat32SuperBlock<D>,
    u: Fat32SuperBlock<D>,
    s: Seq<u32>,
    t: Seq<u32>,
    p: Seq<u32>,
)
    requires
        o.sound(),
        i.bpb == o.bpb,
        i.others_kept(o, s, p),
        n.placed(u, t, p),
        u.kept_but(i, t, p),
        forall|k: int| t.len() <= k < s.len() ==> i.entry(#[trigger] s[k] as int) == 0
            && o.is_cluster(s[k] as int),
    ensures
        u.others_kept(o, s, p),
        u.bpb == o.bpb,
        forall|k: int| t.len() <= k < s.len() ==> u.entry(#[trigger] s[k] as int) == 0,
{
    assert forall|k: int| t.len() <= k < s.len() implies u.entry(#[trigger] s[k] as int) == 0 by {
        assert(i.entry(s[k] as int) == 0 && o.is_cluster(s[k] as int));
        assert(i.has_entry(s[k] as int));
    }
    assert forall|x: int| #[trigger]
        o.is_cluster(x) && o.entry(x) != 0 && !allocator::among(s, s.len() as int, x)
            && !allocator::among(p, p.len() as int, x) implies u.entry(x) == o.entry(x) && u.data(x)
        == o.data(x) by {
        assert(i.has_entry(x));
        assert(i.entry(x) == o.entry(x));
        assert(u.entry(x) == i.entry(x));
        assert(u.data(x) == i.data(x));
    }
}

impl Fat32Inode {
    /// Frees all clusters of the file.
    fn empty<D: BlockDevice>(&mut self, sb: &mut Fat32SuperBlock<D>) -> (r: Result<(), VfsError>)
        requires
            old(sb).inv(),
            old(self).first_clus != 0,
        ensures
            final(sb).inv(),
            final(sb).same_places(*old(sb)),
            final(self).same_file(*old(self)),
            r is Err ==> final(self).still_held(*old(self), 0),
            match r {
                Ok(_) => final(self).first_clus == 0 && final(self).size == 0 && forall|
                    s: Seq<u32>,
                    p: Seq<u32>,
                | #[trigger]
                    old(self).placed(*old(sb), s, p) ==> final(self).truncated(
                        *old(sb),
                        *final(sb),
                        s,
                        Seq::empty(),
                        p,
                        0,
                    ),
                Err(VfsError::NotFound) => forall|s: Seq<u32>, p: Seq<u32>|
                    !#[trigger] old(self).placed(*old(sb), s, p),
                Err(e) => e == VfsError::IOError && forall|s: Seq<u32>, p: Seq<u32>| #[trigger]
                    old(self).placed(*old(sb), s, p) ==> final(sb).faults() > old(sb).faults(),
            },
            old(sb).faults() <= final(sb).faults(),
    {
        let ghost o = *sb;
        let ghost n0 = *self;
        match self.update_dirent_meta(sb, Some(0), Some(0)) {
            Ok(_) => {},
            Err(e) => {
                proof {
                    if e == VfsError::NotFound {
                        lemma_not_found(n0, o);
                    }
                }
                return Err(e);
            },
        }
        let ghost u = *sb;
        match sb.flush_fat_cache() {
            Ok(_) => {},
            Err(e) => return Err(e),
        }
        let ghost q = *sb;
        match sb.release_chain(self.first_clus) {
            Ok(_) => {},
            Err(e) => {
                proof {
                    assert forall|s: Seq<u32>, p: Seq<u32>| #[trigger]
                        n0.placed(o, s, p) implies sb.faults() > o.faults() by {
                        let first = n0.first_clus as int;
                        if !n0.is_unlinked(o) {
                            assert(o.is_file_chain(n0.parent_clus as int, p));
                        }
                        file_write::lemma_chain_same(o, u, first, s);
                        file_write::lemma_chain_same(u, q, first, s);
                        q.lemma_chain_is_walk(first, s);
                        assert(q.has_walk(n0.first_clus));
                    }
                }
                return Err(e);
            },
        }
        self.first_clus = 0;
        self.size = 0;
        proof {
            let f = *sb;
            assert forall|s: Seq<u32>, p: Seq<u32>| #[trigger] n0.placed(
                o,
                s,
                p,
            ) implies self.truncated(o, f, s, Seq::empty(), p, 0) by {
                if !n0.is_unlinked(o) {
                    assert(o.is_file_chain(n0.parent_clus as int, p));
                }
                lemma_emptied(n0, *self, o, u, q, f, s, p);
            }
        }
        Ok(())
    }

    /// Keeps the first `needed` clusters of the file.
    fn shrink<D: BlockDevice>(&mut self, sb: &mut Fat32SuperBlock<D>, needed: u32, new_size: u32)
        -> (r: Result<(), VfsError>)
        requires
            old(sb).inv(),
            old(self).first_clus != 0,
            needed > 0,
            needed == file_write::clusters_for(
                new_size as int,
                old(sb).bpb.byts_per_clus as int,
            ),
        ensures
            final(sb).inv(),
            final(sb).same_places(*old(sb)),
            final(self).same_file(*old(self)),
            r is Err ==> final(self).still_held(*old(self), new_size as int),
            final(self).first_clus == old(self).first_clus,
            match r {
                Ok(_) => final(self).size == new_size && forall|s: Seq<u32>, p: Seq<u32>|
                 #[trigger]
                    old(self).placed(*old(sb), s, p) && needed < s.len() ==> final(self).truncated(
                        *old(sb),
                        *final(sb),
                        s,
                        s.take(needed as int),
                        p,
                        new_size as int,
                    ),
                Err(VfsError::NotFound) => forall|s: Seq<u32>, p: Seq<u32>|
                    !(#[trigger] old(self).placed(*old(sb), s, p) && needed < s.len()),
                Err(e) => e == VfsError::IOError && forall|s: Seq<u32>, p: Seq<u32>| #[trigger]
                    old(self).placed(*old(sb), s, p) && needed < s.len() ==> final(sb).faults()
                        > old(sb).faults(),
            },
            old(sb).faults() <= final(sb).faults(),
    {
        let ghost o = *sb;
        let ghost n0 = *self;
        sb.invalidate_chain(self.first_clus);
        let ghost b = *sb;
        proof {
            assert forall|s: Seq<u32>, p: Seq<u32>| #[trigger] n0.placed(o, s, p) implies n0.placed(
                b,
                s,
                p,
            ) && b.is_file_chain(n0.first_clus as int, s) by {
                lemma_forgotten(n0, o, b, s, p);
            }
        }
        match sb.truncate_chain(self.first_clus, needed) {
            Ok(_) => {},
            Err(e) => return Err(e),
        }
        let ghost c = *sb;
        match sb.flush_fat_cache() {
            Ok(_) => {},
            Err(e) => return Err(e),
        }
        let ghost q = *sb;
        self.size = new_size;
        let r = self.update_dirent_meta(sb, None, Some(new_size));
        proof {
            let u = *sb;
            u.lemma_still_written_back(q);
            assert forall|s: Seq<u32>, p: Seq<u32>| #[trigger]
                n0.placed(o, s, p) && needed < s.len() implies r != Err::<(), VfsError>(
                VfsError::NotFound,
            ) && (r is Err ==> u.faults() > o.faults()) && (r is Ok ==> self.truncated(
                o,
                u,
                s,
                s.take(needed as int),
                p,
                new_size as int,
            )) by {
                lemma_forgotten(n0, o, b, s, p);
                assert(c.cut(b, s, needed as int));
                lemma_cut_placed(n0, b, c, q, s, p, needed as int);
                let t = s.take(needed as int);
                if !n0.is_unlinked(q) {
                    assert(q.is_file_chain(self.parent_clus as int, p));
                }
                if r is Ok {
                    lemma_cut_told(n0, *self, b, q, u, s, p, needed as int);
                    lemma_truncated_from(*self, o, b, u, s, t, p, new_size as int);
                }
            }
        }
        r
    }
}

/// A file whose chain was cut, and whose length was told, has the length.
proof fn lemma_cut_told<D: BlockDevice>(
    n0: Fat32Inode,
    n: Fat32Inode,
    o: Fat32SuperBlock<D>,
    i: Fat32SuperBlock<D>,
    u: Fat32SuperBlock<D>,
    s: Seq<u32>,
    p: Seq<u32>,
    keep: int,
)
    requires
        n0.placed(o, s, p),
        n0.first_clus != 0,
        0 < keep < s.len(),
        keep == file_write::clusters_for(n.size as int, o.bpb.byts_per_clus as int),
        n0.placed(i, s.take(keep), p),
        i.same_data(o),
        forall|k: int| keep <= k < s.len() ==> i.entry(#[trigger] s[k] as int) == 0,
        i.others_kept(o, s, p),
        i.same_places(o),
        i.free_clus_count as int == (o.free_clus_count + s.len() - keep) % 0x1_0000_0000,
        i.next_alloc_hint == o.next_alloc_hint,
        i.chains() == o.chains(),
        !o.chains().contains_key(n0.first_clus),
        n.same_file(n0),
        n.first_clus == n0.first_clus,
        u.written_back(),
        u.same_rest(i),
        n0.is_unlinked(i) ==> u == i,
        !n0.is_unlinked(i) ==> n.meta_written(i, u, p, None, Some(n.size)),
    ensures
        n.truncated(o, u, s, s.take(keep), p, n.size as int),
{
    let t = s.take(keep);
    file_write::lemma_size_written(n0, n, i, u, t, p);
    assert forall|k: int| t.len() <= k < s.len() implies i.entry(#[trigger] s[k] as int) == 0
        && o.is_cluster(s[k] as int) by {
        assert(o.is_cluster(s[k] as int));
    }
    lemma_length_written(n, o, i, u, s, t, p);
    if !n0.is_unlinked(o) {
        i.lemma_same_clusters(o, p);
        u.lemma_told_from(i, o, p, n0.entry_name@, None, Some(n.size));
    }
    assert forall|k: int| #![trigger t[k]] 0 <= k < t.len() implies u.data(t[k] as int) == o.data(
        t[k] as int,
    ) by {
        i.lemma_data_same(o, t[k] as int);
    }
}

/// A file that is placed is found.
proof fn lemma_not_found<D: BlockDevice>(n: Fat32Inode, o: Fat32SuperBlock<D>)
    requires
        !n.is_unlinked(o),
        forall|p: Seq<u32>| #[trigger]
            o.is_file_chain(n.parent_clus as int, p) && o.sound() ==> o.locate(
                p,
                0,
                n.entry_name@,
            ) is None,
    ensures
        forall|s: Seq<u32>, p: Seq<u32>| !#[trigger] n.placed(o, s, p),
{
}

/// A file whose clusters were extended by zeros, and whose length was told, has the length.
proof fn lemma_grown_truncated<D: BlockDevice>(
    n: Fat32Inode,
    o: Fat32SuperBlock<D>,
    f: Fat32SuperBlock<D>,
    s: Seq<u32>,
    t: Seq<u32>,
    p: Seq<u32>,
    len: int,
)
    requires
        o.bpb.wf(),
        n.placed(f, t, p),
        f.made_room(o, s, t, p, 0, 0),
        f.chains_but(o, n.first_clus),
        !n.is_unlinked(o) ==> f.told(
            o,
            p,
            n.entry_name@,
            if s.len() == 0 {
                Some(n.first_clus)
            } else {
                None
            },
            Some(n.size),
        ),
        n.first_clus == first_of(s, t),
        !f.chains().contains_key(n.first_clus),
        f.written_back(),
        n.size == len,
        s.len() < t.len(),
        t.len() == file_write::clusters_for(len, o.bpb.byts_per_clus as int),
    ensures
        n.truncated(o, f, s, t, p, len),
{
    let cs = o.bpb.byts_per_clus as int;
    assert forall|k: int| #![trigger t[k]] 0 <= k < t.len() implies !extend::is_covered(
        k,
        cs,
        0,
        0,
    ) by {
        assert(k * cs >= 0) by (nonlinear_arith)
            requires
                k >= 0,
                cs >= 0,
        ;
    }
}

/// Telling the length leaves the room that was made.
proof fn lemma_room_kept<D: BlockDevice>(
    o: Fat32SuperBlock<D>,
    i: Fat32SuperBlock<D>,
    u: Fat32SuperBlock<D>,
    s: Seq<u32>,
    t: Seq<u32>,
    p: Seq<u32>,
)
    requires
        o.sound(),
        i.made_room(o, s, t, p, 0, 0),
        u.kept_but(i, t, p),
    ensures
        u.made_room(o, s, t, p, 0, 0),
{
    assert forall|x: int| #[trigger]
        o.is_cluster(x) && o.entry(x) != 0 && !allocator::among(s, s.len() as int, x)
            && !allocator::among(p, p.len() as int, x) implies u.entry(x) == o.entry(x) && u.data(x)
        == o.data(x) by {
        assert(i.has_entry(x));
        assert(i.entry(x) == o.entry(x));
        assert(u.entry(x) == i.entry(x));
        assert(u.data(x) == i.data(x));
    }
}

impl Fat32Inode {
    /// Gives a file that has clusters `more` further ones.
    fn grow_more<D: BlockDevice>(&mut self, sb: &mut Fat32SuperBlock<D>, more: u32, new_size: u32)
        -> (r: Result<(), VfsError>)
        requires
            old(sb).inv(),
            old(self).first_clus != 0,
            more > 0,
        ensures
            final(sb).inv(),
            final(sb).same_places(*old(sb)),
            final(self).same_file(*old(self)),
            r is Err ==> final(self).still_held(*old(self), new_size as int),
            final(self).first_clus == old(self).first_clus,
            match r {
                Ok(_) => final(self).size == new_size && forall|s: Seq<u32>, p: Seq<u32>|
                 #[trigger]
                    old(self).placed(*old(sb), s, p) && s.len() + more == file_write::clusters_for(
                        new_size as int,
                        old(sb).bpb.byts_per_clus as int,
                    ) ==> exists|t: Seq<u32>| #[trigger]
                        final(self).truncated(
                            *old(sb),
                            *final(sb),
                            s,
                            t,
                            p,
                            new_size as int,
                        ),
                Err(VfsError::NotFound) => forall|s: Seq<u32>, p: Seq<u32>|
                    !#[trigger] old(self).placed(*old(sb), s, p),
                Err(VfsError::NoSpace) => *final(self) == *old(self) && forall|
                    s: Seq<u32>,
                    p: Seq<u32>,
                | #[trigger]
                    old(self).placed(*old(sb), s, p) ==> old(sb).short_of(more as int) && (
                    final(sb).faults() == old(sb).faults() ==> exists|v: Seq<u32>|
                        v.len() < more && #[trigger] final(sb).only_took(*old(sb), s, v)),
                Err(e) => e == VfsError::IOError && forall|s: Seq<u32>, p: Seq<u32>| #[trigger]
                    old(self).placed(*old(sb), s, p) ==> final(sb).faults() > old(sb).faults(),
            },
            old(sb).faults() <= final(sb).faults(),
    {
        let ghost o = *sb;
        let ghost n0 = *self;
        sb.invalidate_chain(self.first_clus);
        let ghost b = *sb;
        proof {
            assert forall|s: Seq<u32>, p: Seq<u32>| #[trigger] n0.placed(o, s, p) implies n0.placed(
                b,
                s,
                p,
            ) && b.is_file_chain(n0.first_clus as int, s) by {
                lemma_forgotten(n0, o, b, s, p);
            }
        }
        match sb.extend_chain(self.first_clus, more) {
            Ok(_) => {},
            Err(e) => {
                proof {
                    assert forall|s: Seq<u32>, p: Seq<u32>| #[trigger]
                        n0.placed(o, s, p) && e == VfsError::NoSpace implies o.short_of(more as int)
                        && (sb.faults() == o.faults() ==> exists|v: Seq<u32>|
                        v.len() < more && #[trigger] sb.only_took(o, s, v)) by {
                        lemma_forgotten(n0, o, b, s, p);
                        assert(b.has_chain(n0.first_clus as int));
                        b.lemma_short_same(o, more as int);
                        if sb.faults() == o.faults() {
                            let v = choose|v: Seq<u32>|
                                v.len() < more && #[trigger] sb.grown(b, s, v);
                            assert((s + v)[0] == s[0]);
                            assert(b.chains().remove(s[0]) =~= b.chains());
                            assert(sb.only_took(b, s, v));
                            sb.lemma_took_from(b, o, s, v);
                        }
                    }
                }
                return Err(e);
            },
        }
        let ghost g = *sb;
        match sb.flush_fat_cache() {
            Ok(_) => {},
            Err(e) => return Err(e),
        }
        let ghost q = *sb;
        self.size = new_size;
        let r = self.update_dirent_meta(sb, None, Some(new_size));
        proof {
            let u = *sb;
            u.lemma_still_written_back(q);
            assert forall|s: Seq<u32>, p: Seq<u32>| #[trigger] n0.placed(o, s, p) implies r
                != Err::<(), VfsError>(VfsError::NotFound) && (r is Err ==> u.faults()
                > o.faults()) && (r is Ok && s.len() + more
                == file_write::clusters_for(new_size as int, o.bpb.byts_per_clus as int)
                ==> exists|t: Seq<u32>| #[trigger]
                self.truncated(o, u, s, t, p, new_size as int)) by {
                lemma_forgotten(n0, o, b, s, p);
                assert(b.same_table(b) && b.same_data(b));
                let v = choose|v: Seq<u32>| v.len() == more && #[trigger] g.grown(b, s, v);
                g.lemma_grown_extended(b, s, v);
                q.lemma_extended_quiet(g, b, s, v);
                assert((s.len() + v.len()) * o.bpb.byts_per_clus >= 0) by (nonlinear_arith)
                    requires
                        s.len() + v.len() >= 0,
                        o.bpb.byts_per_clus >= 0,
                ;
                file_write::lemma_room(n0, b, b, q, q, s, v, p, 0, 0);
                let t = s + v;
                assert(t[0] == s[0]);
                assert(n0.placed(q, t, p));
                if !n0.is_unlinked(q) {
                    assert(q.is_file_chain(self.parent_clus as int, p));
                }
                if r is Ok {
                    file_write::lemma_size_written(n0, *self, q, u, t, p);
                    lemma_room_kept(b, q, u, s, t, p);
                    if !n0.is_unlinked(o) {
                        u.lemma_told_from(q, b, p, n0.entry_name@, None, Some(new_size));
                    }
                    if t.len() == file_write::clusters_for(
                        new_size as int,
                        o.bpb.byts_per_clus as int,
                    ) {
                        lemma_grown_truncated(*self, b, u, s, t, p, new_size as int);
                        lemma_truncated_from(*self, o, b, u, s, t, p, new_size as int);
                        assert(self.truncated(o, u, s, t, p, new_size as int));
                    }
                }
            }
        }
        r
    }

    /// Gives a file without clusters `count` of them.
    fn grow_from_nothing<D: BlockDevice>(
        &mut self,
        sb: &mut Fat32SuperBlock<D>,
        count: u32,
        new_size: u32,
    ) -> (r: Result<(), VfsError>)
        requires
            old(sb).inv(),
            old(self).first_clus == 0,
            count > 0,
            count == file_write::clusters_for(
                new_size as int,
                old(sb).bpb.byts_per_clus as int,
            ),
        ensures
            final(sb).inv(),
            final(sb).same_places(*old(sb)),
            final(self).same_file(*old(self)),
            r is Err ==> final(self).still_held(*old(self), new_size as int),
            match r {
                Ok(_) => final(self).size == new_size && forall|s: Seq<u32>, p: Seq<u32>|
                 #[trigger]
                    old(self).placed(*old(sb), s, p) ==> exists|
                        t: Seq<u32>,
                    | #[trigger]
                        final(self).truncated(
                            *old(sb),
                            *final(sb),
                            s,
                            t,
                            p,
                            new_size as int,
                        ),
                Err(VfsError::NotFound) => forall|s: Seq<u32>, p: Seq<u32>|
                    !#[trigger] old(self).placed(*old(sb), s, p),
                Err(VfsError::NoSpace) => *final(self) == *old(self) && forall|
                    s: Seq<u32>,
                    p: Seq<u32>,
                | #[trigger]
                    old(self).placed(*old(sb), s, p) ==> old(sb).short_of(count as int) && (
                    final(sb).faults() == old(sb).faults() ==> exists|v: Seq<u32>|
                        v.len() < count && #[trigger] final(sb).only_took(*old(sb), s, v)),
                Err(e) => e == VfsError::IOError && forall|s: Seq<u32>, p: Seq<u32>| #[trigger]
                    old(self).placed(*old(sb), s, p) ==> final(sb).faults() > old(sb).faults(),
            },
            old(sb).faults() <= final(sb).faults(),
    {
        let ghost o = *sb;
        let ghost n0 = *self;
        let c: u32 = match sb.new_chain(count) {
            Ok(c) => c,
            Err(e) => {
                assert forall|s: Seq<u32>, p: Seq<u32>| #[trigger] n0.placed(o, s, p) implies s
                    == Seq::<u32>::empty() by {
                    assert(s =~= Seq::<u32>::empty());
                }
                return Err(e);
            },
        };
        let ghost e = *sb;
        match sb.flush_fat_cache() {
            Ok(_) => {},
            Err(e) => return Err(e),
        }
        let ghost g = *sb;
        sb.invalidate_chain(c);
        let ghost i = *sb;
        self.first_clus = c;
        self.size = new_size;
        let r = self.update_dirent_meta(sb, Some(c), Some(new_size));
        proof {
            let u = *sb;
            assert(o.same_table(o) && o.same_data(o));
            u.lemma_still_written_back(i);
            assert forall|s: Seq<u32>, p: Seq<u32>| #[trigger] n0.placed(o, s, p) implies r
                != Err::<(), VfsError>(VfsError::NotFound) && (r is Err ==> u.faults()
                > o.faults()) && (r is Ok
                ==> exists|t: Seq<u32>| #[trigger]
                self.truncated(o, u, s, t, p, new_size as int)) by {
                let v = choose|v: Seq<u32>|
                    v.len() == count && v[0] == c && #[trigger] e.extended(
                        o,
                        Seq::empty(),
                        v,
                        0,
                        0,
                    );
                assert(s =~= Seq::<u32>::empty());
                g.lemma_extended_quiet(e, o, s, v);
                i.lemma_chains_remove(g, o, c);
                assert(o.is_cluster(v[0] as int));
                let t = s + v;
                assert(t =~= v);
                assert((s.len() + v.len()) * o.bpb.byts_per_clus >= 0) by (nonlinear_arith)
                    requires
                        s.len() + v.len() >= 0,
                        o.bpb.byts_per_clus >= 0,
                ;
                file_write::lemma_room(n0, o, o, g, i, s, v, p, 0, 0);
                assert(o.is_cluster(v[0] as int) && o.entry(v[0] as int) == 0);
                if !n0.is_unlinked(o) {
                    assert(i.is_file_chain(self.parent_clus as int, p));
                }
                if r is Ok {
                    file_write::lemma_first_recorded(n0, *self, o, i, u, s, t, p, 0, 0);
                    lemma_grown_truncated(*self, o, u, s, t, p, new_size as int);
                    assert(self.truncated(o, u, s, t, p, new_size as int));
                }
            }
        }
        r
    }

    /// Gives the file the length `len`. What it has beyond that is cut off; where clusters are
    /// missing, it gets new ones of zeros. What stood behind its end in its last cluster is
    /// not cleared. `now` is the time of the change, where it is known.
    pub fn truncate<D: BlockDevice>(
        &mut self,
        sb: &mut Fat32SuperBlock<D>,
        len: u64,
        now: Option<u64>,
    ) -> (r: Result<(), VfsError>)
        requires
            old(sb).inv(),
        ensures
            final(sb).inv(),
            final(sb).same_places(*old(sb)),
            final(self).same_file(*old(self)),
            r is Err ==> final(self).still_held(*old(self), len as int),
            old(self).file_type != FileType::Regular ==> r == Err::<(), VfsError>(
                VfsError::IsADirectory,
            ) && *final(self) == *old(self) && *final(sb) == *old(sb),
            old(self).file_type == FileType::Regular && len > u32::MAX ==> r == Err::<(), VfsError>(
                VfsError::FileTooLarge,
            ) && *final(self) == *old(self) && *final(sb) == *old(sb),
            old(self).file_type == FileType::Regular && len <= u32::MAX ==> match r {
                Ok(_) => final(self).size == len && final(self).mtime == (match now {
                    Some(t) => t,
                    None => 0,
                }) && forall|s: Seq<u32>, p: Seq<u32>| #[trigger]
                    old(self).placed(*old(sb), s, p) ==> exists|
                        t: Seq<u32>,
                    | #[trigger]
                        final(self).truncated(*old(sb), *final(sb), s, t, p, len as int),
                Err(VfsError::NotFound) => forall|s: Seq<u32>, p: Seq<u32>|
                    !#[trigger] old(self).placed(*old(sb), s, p),
                Err(VfsError::NoSpace) => *final(self) == *old(self) && forall|
                    s: Seq<u32>,
                    p: Seq<u32>,
                | #[trigger]
                    old(self).placed(*old(sb), s, p) ==> old(sb).short_of(
                        file_write::clusters_for(len as int, old(sb).bpb.byts_per_clus as int)
                            - s.len(),
                    ) && (final(sb).faults() == old(sb).faults() ==> exists|v: Seq<u32>|
                        s.len() + v.len() < file_write::clusters_for(
                            len as int,
                            old(sb).bpb.byts_per_clus as int,
                        ) && #[trigger] final(sb).only_took(*old(sb), s, v)),
                Err(e) => e == VfsError::IOError && forall|s: Seq<u32>, p: Seq<u32>| #[trigger]
                    old(self).placed(*old(sb), s, p) ==> final(sb).faults() > old(sb).faults(),
            },
    {
        if self.file_type != FileType::Regular {
            return Err(VfsError::IsADirectory);
        }
        if len > u32::MAX as u64 {
            return Err(VfsError::FileTooLarge);
        }
        let ghost o = *sb;
        let ghost n0 = *self;
        let new_size: u32 = len as u32;
        let cs: u64 = sb.bpb.byts_per_clus as u64;
        let needed: u32 = if new_size == 0 {
            0
        } else {
            assert((len - 1) / (cs as int) <= 0x80_0000) by (nonlinear_arith)
                requires
                    0 < len <= 0xFFFF_FFFF,
                    cs >= 512,
            ;
            ((new_size as u64 - 1) / cs + 1) as u32
        };
        let (have, _tail) = match self.chain_end(sb) {
            Ok(h) => h,
            Err(e) => return Err(e),
        };
        let ghost c = *sb;
        let r = if new_size == 0 && self.first_clus != 0 {
            self.empty(sb)
        } else if needed < have && self.first_clus != 0 {
            self.shrink(sb, needed, new_size)
        } else if needed > have {
            if self.first_clus == 0 {
                self.grow_from_nothing(sb, needed, new_size)
            } else {
                self.grow_more(sb, needed - have, new_size)
            }
        } else {
            self.size = new_size;
            Ok(())
        };
        proof {
            let f = *sb;
            assert forall|s: Seq<u32>, p: Seq<u32>| #[trigger] n0.placed(o, s, p) implies r
                != Err::<(), VfsError>(VfsError::NotFound) && (r == Err::<(), VfsError>(
                VfsError::IOError,
            ) ==> f.faults() > o.faults()) && (r == Err::<(), VfsError>(VfsError::NoSpace)
                ==> o.short_of(
                file_write::clusters_for(len as int, o.bpb.byts_per_clus as int) - s.len(),
            ) && (f.faults() == o.faults() ==> exists|v: Seq<u32>|
                s.len() + v.len() < file_write::clusters_for(
                    len as int,
                    o.bpb.byts_per_clus as int,
                ) && #[trigger] f.only_took(o, s, v))) && (r is Ok ==> exists|
                t: Seq<u32>,
            | #[trigger]
                self.truncated(o, f, s, t, p, len as int)) by {
                assert(n0.still_placed(o, c, s, p));
                assert(n0.placed(c, s, p));
                if r == Err::<(), VfsError>(VfsError::NoSpace) {
                    c.lemma_short_same(o, needed - have);
                    if f.faults() == o.faults() {
                        let v = choose|v: Seq<u32>|
                            v.len() < needed - have && #[trigger] f.only_took(c, s, v);
                        f.lemma_took_from(c, o, s, v);
                    }
                }
                if r is Ok {
                    let t = if new_size == 0 && n0.first_clus != 0 {
                        Seq::empty()
                    } else if needed < have && n0.first_clus != 0 {
                        s.take(needed as int)
                    } else if needed > have {
                        choose|t: Seq<u32>| #[trigger] self.truncated(c, f, s, t, p, len as int)
                    } else {
                        s
                    };
                    if needed == have && !(new_size == 0 && n0.first_clus != 0) {
                        lemma_length_only(n0, *self, o, c, s, p, len as int);
                        assert(self.truncated(o, f, s, t, p, len as int));
                    } else {
                        assert(self.truncated(c, f, s, t, p, len as int));
                        lemma_truncated_from(*self, o, c, f, s, t, p, len as int);
                    }
                }
            }
        }
        let ghost n1 = *self;
        match r {
            Ok(_) => {},
            Err(e) => return Err(e),
        }
        self.mtime = match now {
            Some(t) => t,
            None => 0,
        };
        proof {
            let f = *sb;
            assert forall|s: Seq<u32>, p: Seq<u32>| #[trigger]
                n0.placed(o, s, p) implies exists|t: Seq<u32>| #[trigger]
                self.truncated(o, f, s, t, p, len as int) by {
                let t = choose|t: Seq<u32>| #[trigger] n1.truncated(o, f, s, t, p, len as int);
                assert(self.truncated(o, f, s, t, p, len as int));
            }
        }
        Ok(())
    }
}

/// A change that began in a volume that is the same.
proof fn lemma_truncated_from<D: BlockDevice>(
    n: Fat32Inode,
    o: Fat32SuperBlock<D>,
    c: Fat32SuperBlock<D>,
    f: Fat32SuperBlock<D>,
    s: Seq<u32>,
    t: Seq<u32>,
    p: Seq<u32>,
    len: int,
)
    requires
        o.sound(),
        c.same_places(o),
        c.free_clus_count == o.free_clus_count,
        c.next_alloc_hint == o.next_alloc_hint,
        c.chains_but(o, first_of(s, t)),
        c.same_data(o),
        c.same_table(o),
        t.len() != s.len(),
        n.truncated(c, f, s, t, p, len),
    ensures
        n.truncated(o, f, s, t, p, len),
{
    if !n.is_unlinked(o) {
        c.lemma_same_clusters(o, p);
        f.lemma_told_from(
            c,
            o,
            p,
            n.entry_name@,
            if (s.len() == 0) != (t.len() == 0) {
                Some(n.first_clus)
            } else {
                None
            },
            Some(n.size),
        );
    }
    assert forall|k: int| #![trigger t[k]] 0 <= k < t.len() implies c.data(t[k] as int) == o.data(
        t[k] as int,
    ) by {
        c.lemma_data_same(o, t[k] as int);
    }
    assert forall|k: int| s.len() <= k < t.len() implies o.entry(#[trigger] t[k] as int) == 0 by {
        assert(c.entry(t[k] as int) == 0);
        if n.first_clus != 0 {
            assert(f.is_cluster(t[k] as int));
        }
        assert(o.has_entry(t[k] as int));
    }
    assert forall|x: int| #[trigger]
        o.is_cluster(x) && o.entry(x) != 0 && !allocator::among(s, s.len() as int, x)
            && !allocator::among(p, p.len() as int, x) implies f.entry(x) == o.entry(x) && f.data(x)
        == o.data(x) by {
        assert(o.has_entry(x));
        assert(c.entry(x) == o.entry(x));
        c.lemma_data_same(o, x);
        assert(c.is_cluster(x));
    }
}

} // verus!
