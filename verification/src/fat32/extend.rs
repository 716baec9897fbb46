//! Giving a file the clusters that a write needs.

use vstd::prelude::*;

use crate::blockdriver::traits::BlockDevice;
use crate::fat32::allocator;
use crate::fat32::chain;
use crate::fat32::grow;
use crate::fat32::superblock::{Fat32SuperBlock, EOC_MARKER};
use crate::vfs::VfsError;

verus! {

/// The cluster with number `idx` in a file lies wholly between `offset` and `end`.
pub open spec fn is_covered(idx: int, cs: int, offset: int, end: int) -> bool {
    offset <= idx * cs && idx * cs + cs <= end
}

impl<D: BlockDevice> Fat32SuperBlock<D> {
    /// From `a`, the first `n` clusters of `v` were linked, each to the next.
    pub open spec fn linked_up(self, a: Self, v: Seq<u32>, n: int) -> bool {
        &&& forall|j: int| 0 <= j < n ==> #[trigger] self.entry(v[j] as int) == v[j + 1]
        &&& forall|x: int|
            a.has_entry(x) && !allocator::among(v, n, x) ==> #[trigger] self.entry(x) == a.entry(x)
    }

    /// Links the clusters of `v`, each to the next.
    fn link_all(&mut self, v: &Vec<u32>) -> (r: Result<(), VfsError>)
        requires
            old(self).inv(),
            v@.len() > 0,
            forall|k: int| 0 <= k < v@.len() ==> old(self).is_cluster(#[trigger] v@[k] as int),
        ensures
            final(self).inv(),
            final(self).same_rest(*old(self)),
            match r {
                Ok(_) => old(self).sound() && v@.no_duplicates() ==> final(self).sound()
                    && final(self).same_data(*old(self))
                    && final(self).linked_up(*old(self), v@, v@.len() - 1),
                Err(e) => e == VfsError::IOError && final(self).faults() > old(self).faults(),
            },
    {
        let ghost a = *self;
        let mut i: usize = 0;
        while i < v.len() - 1
            invariant
                a == *old(self),
                v@.len() > 0,
                i <= v@.len() - 1,
                self.inv(),
                self.same_rest(a),
                forall|k: int| 0 <= k < v@.len() ==> a.is_cluster(#[trigger] v@[k] as int),
                a.sound() && v@.no_duplicates() ==> self.sound() && self.same_data(a)
                    && self.linked_up(a, v@, i as int),
            decreases v@.len() - i,
        {
            let ghost m = *self;
            assert(a.is_cluster(v@[i as int] as int));
            assert(a.is_cluster(v@[i + 1] as int));
            match self.write_fat_entry(v[i], v[i + 1]) {
                Ok(_) => {},
                Err(e) => return Err(e),
            }
            proof {
                if a.sound() && v@.no_duplicates() {
                    let n = i as int;
                    assert(m.has_entry(v@[n] as int));
                    self.lemma_same_data_trans(m, a);
                    assert forall|j: int| 0 <= j < n + 1 implies #[trigger] self.entry(v@[j] as int)
                        == v@[j + 1] by {
                        assert(a.is_cluster(v@[j] as int));
                        assert(m.has_entry(v@[j] as int));
                        if j < n {
                            assert(v@[j] != v@[n]);
                            assert(m.entry(v@[j] as int) == v@[j + 1]);
                        }
                    }
                    assert forall|x: int|
                        a.has_entry(x) && !allocator::among(v@, n + 1, x) implies #[trigger] self.entry(
                        x,
                    ) == a.entry(x) by {
                        chain::lemma_among_step(v@, n, x);
                        assert(m.has_entry(x));
                        assert(m.entry(x) == a.entry(x));
                    }
                }
            }
            i = i + 1;
        }
        Ok(())
    }

    /// Fills the clusters of `v` with zeros, but for those that a write from `offset`
    /// to `end` is going to overwrite as a whole, where the first of them has number `have`
    /// in its file.
    fn zero_uncovered(&mut self, v: &Vec<u32>, have: u32, offset: u64, end: u64) -> (r: Result<
        (),
        VfsError,
    >)
        requires
            old(self).inv(),
            offset <= end <= 0x1_0000_0000,
            have + v@.len() <= 0x1_0000_0000,
            forall|k: int| 0 <= k < v@.len() ==> old(self).is_cluster(#[trigger] v@[k] as int),
        ensures
            final(self).inv(),
            final(self).same_rest(*old(self)),
            match r {
                Ok(_) => old(self).sound() ==> final(self).zeroed(
                    *old(self),
                    v@,
                    v@.len() as int,
                    have as int,
                    offset as int,
                    end as int,
                ),
                Err(e) => e == VfsError::IOError && final(self).faults() > old(self).faults(),
            },
    {
        let ghost a = *self;
        let cs: u64 = self.bpb.byts_per_clus as u64;
        let mut i: usize = 0;
        while i < v.len()
            invariant
                a == *old(self),
                i <= v@.len(),
                cs == a.bpb.byts_per_clus,
                cs <= 0x1_0000,
                offset <= end <= 0x1_0000_0000,
                have + v@.len() <= 0x1_0000_0000,
                self.inv(),
                self.same_rest(a),
                forall|k: int| 0 <= k < v@.len() ==> a.is_cluster(#[trigger] v@[k] as int),
                a.sound() ==> self.zeroed(
                    a,
                    v@,
                    i as int,
                    have as int,
                    offset as int,
                    end as int,
                ),
            decreases v@.len() - i,
        {
            let c: u32 = v[i];
            assert(a.is_cluster(v@[i as int] as int));
            let idx: u64 = have as u64 + i as u64;
            assert(idx * cs <= 0x1_0000_0000 * 0x1_0000) by (nonlinear_arith)
                requires
                    idx <= 0x1_0000_0000,
                    cs <= 0x1_0000,
            ;
            let start: u64 = idx * cs;
            let ghost m = *self;
            let covered = start >= offset && start + cs <= end;
            if !covered {
                match self.zero_cluster(c) {
                    Ok(_) => {},
                    Err(e) => return Err(e),
                }
            }
            proof {
                if a.sound() {
                    let n = i as int;
                    let f = *self;
                    assert forall|j: int| #![trigger v@[j]]
                        0 <= j < n + 1 && !is_covered(
                            have + j,
                            cs as int,
                            offset as int,
                            end as int,
                        ) implies f.data(v@[j] as int) == grow::zeros(cs as int) by {
                        assert(a.is_cluster(v@[j] as int));
                        if j < n && v@[j] != c {
                            assert(f.data(v@[j] as int) == m.data(v@[j] as int));
                        }
                        if j < n && v@[j] == c && covered {
                            assert(f.data(v@[j] as int) == m.data(v@[j] as int));
                        }
                    }
                    if v@.no_duplicates() {
                        assert forall|j: int| #![trigger v@[j]]
                            0 <= j < v@.len() && (n + 1 <= j || is_covered(
                                have + j,
                                cs as int,
                                offset as int,
                                end as int,
                            )) implies f.data(v@[j] as int) == a.data(v@[j] as int) by {
                            assert(a.is_cluster(v@[j] as int));
                            assert(m.data(v@[j] as int) == a.data(v@[j] as int));
                            if j != n {
                                assert(v@[j] != v@[n]);
                                assert(v@[j] != c);
                            }
                            assert(f.data(v@[j] as int) == m.data(v@[j] as int));
                        }
                    }
                    assert forall|x: int|
                        2 <= x < 0x1_0000_0000 && !allocator::among(
                            v@,
                            n + 1,
                            x,
                        ) implies #[trigger] f.data(x) == a.data(x) by {
                        chain::lemma_among_step(v@, n, x);
                        assert(m.data(x) == a.data(x));
                    }
                    assert forall|x: int| a.has_entry(x) implies #[trigger] f.entry(x) == a.entry(
                        x,
                    ) by {
                        assert(m.has_entry(x));
                        assert(m.entry(x) == a.entry(x));
                    }
                }
            }
            i = i + 1;
        }
        Ok(())
    }

    /// From `a`, those of the first `n` clusters of `v` that the write does not overwrite as
    /// a whole were filled with zeros.
    pub open spec fn zeroed(
        self,
        a: Self,
        v: Seq<u32>,
        n: int,
        have: int,
        offset: int,
        end: int,
    ) -> bool {
        &&& self.sound()
        &&& self.same_table(a)
        &&& forall|j: int| #![trigger v[j]]
            0 <= j < n && !is_covered(have + j, a.bpb.byts_per_clus as int, offset, end)
                ==> self.data(v[j] as int) == grow::zeros(a.bpb.byts_per_clus as int)
        &&& v.no_duplicates() ==> forall|j: int| #![trigger v[j]]
            0 <= j < v.len() && (n <= j || is_covered(
                have + j,
                a.bpb.byts_per_clus as int,
                offset,
                end,
            )) ==> self.data(v[j] as int) == a.data(v[j] as int)
        &&& forall|x: int|
            2 <= x < 0x1_0000_0000 && !allocator::among(v, n, x) ==> #[trigger] self.data(x)
                == a.data(x)
    }

    /// From `o`, the chain `s`, which may be empty, has grown by the clusters `new`. Those
    /// of them that lie wholly between `offset` and `end` hold what they held, and the others
    /// zeros.
    pub open spec fn extended(
        self,
        o: Self,
        s: Seq<u32>,
        new: Seq<u32>,
        offset: int,
        end: int,
    ) -> bool {
        let cs = o.bpb.byts_per_clus as int;
        &&& self.tracked_ok()
        &&& self.same_but_alloc(o)
        &&& self.free_clus_count as int == (o.free_clus_count - new.len()) % 0x1_0000_0000
        &&& self.searches_behind(o, new, true)
        &&& new.len() > 0
        &&& self.is_file_chain((s + new)[0] as int, s + new)
        &&& forall|k: int| 0 <= k < new.len() ==> o.is_cluster(#[trigger] new[k] as int) && o.entry(
            new[k] as int,
        ) == 0
        &&& forall|x: int|
            o.has_entry(x) && !allocator::among(new, new.len() as int, x) && !(s.len() > 0 && x
                == s.last()) ==> #[trigger] self.entry(x) == o.entry(x)
        &&& forall|j: int| #![trigger new[j]]
            0 <= j < new.len() ==> self.data(new[j] as int) == (if is_covered(
                s.len() + j,
                cs,
                offset,
                end,
            ) {
                o.data(new[j] as int)
            } else {
                grow::zeros(cs)
            })
        &&& forall|x: int|
            2 <= x < 0x1_0000_0000 && !allocator::among(new, new.len() as int, x)
                ==> #[trigger] self.data(x) == o.data(x)
    }

    /// `s` is the chain of `have` clusters that ends with `tail`.
    pub open spec fn is_tail_of(self, s: Seq<u32>, tail: Option<u32>, have: int) -> bool {
        &&& s.len() == have
        &&& match tail {
            Some(t) => s.len() > 0 && self.is_file_chain(s[0] as int, s) && t == s.last(),
            None => s.len() == 0,
        }
    }

    /// Allocates `need` clusters for a write from `offset` to `end`, links them, and hangs
    /// them behind `tail`, the last of the `have` clusters that the file has, if any.
    pub fn extend_for_write(
        &mut self,
        tail: Option<u32>,
        have: u32,
        need: u32,
        offset: u64,
        end: u64,
    ) -> (r: Result<Vec<u32>, VfsError>)
        requires
            old(self).inv(),
            need > 0,
            have + need <= 0x1_0000_0000,
            offset <= end <= 0x1_0000_0000,
        ensures
            final(self).inv(),
            final(self).same_but_alloc(*old(self)),
            match r {
                Ok(v) => v@.len() == need && (forall|k: int|
                    0 <= k < v@.len() ==> old(self).is_cluster(#[trigger] v@[k] as int)) && forall|
                    s: Seq<u32>,
                | #[trigger]
                    old(self).is_tail_of(s, tail, have as int) && old(self).tracked_ok()
                        ==> final(self).extended(*old(self), s, v@, offset as int, end as int),
                Err(VfsError::NoSpace) => old(self).short_of(need as int) && (final(self).faults()
                    == old(self).faults() ==> final(self).quiet(*old(self))),
                Err(e) => e == VfsError::IOError && final(self).faults() > old(self).faults(),
            },
    {
        let ghost o = *self;
        let v: Vec<u32> = match self.alloc_clusters(need) {
            Ok(v) => v,
            Err(e) => return Err(e),
        };
        let ghost a = *self;
        match self.link_all(&v) {
            Ok(_) => {},
            Err(e) => return Err(e),
        }
        let ghost l = *self;
        match tail {
            Some(t) => {
                match self.write_fat_entry(t, v[0]) {
                    Ok(_) => {},
                    Err(e) => return Err(e),
                }
            },
            None => {},
        }
        let ghost t = *self;
        match self.zero_uncovered(&v, have, offset, end) {
            Ok(_) => {},
            Err(e) => return Err(e),
        }
        proof {
            let f = *self;
            assert forall|s: Seq<u32>| #[trigger]
                o.is_tail_of(s, tail, have as int) && o.tracked_ok() implies f.extended(
                o,
                s,
                v@,
                offset as int,
                end as int,
            ) by {
                a.lemma_allocated(o, v@);
                if tail is Some {
                    lemma_tail_linked(o, a, l, s, v@);
                } else {
                    l.lemma_same_source(l);
                }
                lemma_extended(o, a, l, t, f, s, v@, tail, offset as int, end as int);
            }
        }
        Ok(v)
    }
}

/// The tail of a chain is not among newly allocated clusters.
proof fn lemma_tail_linked<D: BlockDevice>(
    o: Fat32SuperBlock<D>,
    a: Fat32SuperBlock<D>,
    l: Fat32SuperBlock<D>,
    s: Seq<u32>,
    v: Seq<u32>,
)
    requires
        o.sound(),
        l.bpb == o.bpb,
        s.len() > 0,
        o.is_file_chain(s[0] as int, s),
        forall|k: int| 0 <= k < v.len() ==> o.entry(#[trigger] v[k] as int) == 0,
    ensures
        l.has_entry(s.last() as int),
        !allocator::among(v, v.len() as int, s.last() as int),
{
    let n = s.len() as int;
    assert(s.last() == s[n - 1]);
    assert(o.is_cluster(s[n - 1] as int));
    grow::lemma_chain_taken(o, s[0] as int, s, n - 1);
    if allocator::among(v, v.len() as int, s.last() as int) {
        let k = choose|k: int| 0 <= k < v.len() && #[trigger] v[k] == s.last() as int;
        assert(o.entry(v[k] as int) == 0);
    }
}

/// What the table says after `v` was allocated, linked and hung behind `s`.
pub open spec fn table_extended<D: BlockDevice>(
    o: Fat32SuperBlock<D>,
    f: Fat32SuperBlock<D>,
    s: Seq<u32>,
    v: Seq<u32>,
) -> bool {
    &&& forall|j: int|
        0 <= j < v.len() ==> f.entry(#[trigger] v[j] as int) == (if j < v.len() - 1 {
            v[j + 1] as int
        } else {
            EOC_MARKER as int
        })
    &&& s.len() > 0 ==> f.entry(s.last() as int) == v[0]
    &&& forall|x: int|
        o.has_entry(x) && !allocator::among(v, v.len() as int, x) && !(s.len() > 0 && x == s.last())
            ==> #[trigger] f.entry(x) == o.entry(x)
}

proof fn lemma_table_extended<D: BlockDevice>(
    o: Fat32SuperBlock<D>,
    a: Fat32SuperBlock<D>,
    l: Fat32SuperBlock<D>,
    t: Fat32SuperBlock<D>,
    f: Fat32SuperBlock<D>,
    s: Seq<u32>,
    v: Seq<u32>,
    tail: Option<u32>,
)
    requires
        o.sound(),
        o.is_tail_of(s, tail, s.len() as int),
        v.len() > 0,
        a.entries_set(o, v, v.len() as int, EOC_MARKER as int),
        v.no_duplicates(),
        forall|k: int|
            0 <= k < v.len() ==> o.is_cluster(#[trigger] v[k] as int) && o.has_entry(v[k] as int)
                && o.entry(v[k] as int) == 0,
        a.bpb == o.bpb,
        l.bpb == o.bpb,
        t.bpb == o.bpb,
        l.linked_up(a, v, v.len() - 1),
        match tail {
            Some(c) => t.entry_set(l, c as int, v[0] as int % 0x1000_0000),
            None => t.same_table(l),
        },
        f.same_table(t),
    ensures
        table_extended(o, f, s, v),
{
    let n = s.len() as int;
    let m = v.len() as int;
    if n > 0 {
        lemma_tail_linked(o, a, l, s, v);
    }
    assert(o.is_cluster(v[0] as int));
    assert forall|x: int| o.has_entry(x) implies #[trigger] f.entry(x) == (if n > 0 && x
        == s.last() {
        v[0] as int
    } else {
        l.entry(x)
    }) by {
        assert(t.has_entry(x) && l.has_entry(x));
        assert(f.entry(x) == t.entry(x));
    }
    assert forall|j: int| 0 <= j < m implies f.entry(#[trigger] v[j] as int) == (if j < m - 1 {
        v[j + 1] as int
    } else {
        EOC_MARKER as int
    }) by {
        assert(o.has_entry(v[j] as int));
        assert(allocator::among(v, m, v[j] as int));
        assert(a.entry(v[j] as int) == EOC_MARKER);
        if j < m - 1 {
            assert(l.entry(v[j] as int) == v[j + 1]);
        } else {
            assert(!allocator::among(v, m - 1, v[j] as int)) by {
                if allocator::among(v, m - 1, v[j] as int) {
                    let i = choose|i: int| 0 <= i < m - 1 && #[trigger] v[i] == v[j] as int;
                    assert(v[i] != v[j]);
                }
            }
            assert(a.has_entry(v[j] as int));
            assert(l.entry(v[j] as int) == a.entry(v[j] as int));
        }
    }
    assert forall|x: int|
        o.has_entry(x) && !allocator::among(v, m, x) && !(n > 0 && x == s.last()) implies #[trigger] f.entry(
        x,
    ) == o.entry(x) by {
        if allocator::among(v, m - 1, x) {
            let i = choose|i: int| 0 <= i < m - 1 && #[trigger] v[i] == x;
            assert(allocator::among(v, m, x));
        }
        assert(a.has_entry(x));
        assert(l.entry(x) == a.entry(x));
        assert(a.entry(x) == o.entry(x));
    }
    if n > 0 {
        assert(o.has_entry(s.last() as int));
    }
}

/// An extended table holds the longer chain.
proof fn lemma_chain_extended<D: BlockDevice>(
    o: Fat32SuperBlock<D>,
    f: Fat32SuperBlock<D>,
    s: Seq<u32>,
    v: Seq<u32>,
)
    requires
        o.sound(),
        f.bpb == o.bpb,
        s.len() > 0 ==> o.is_file_chain(s[0] as int, s),
        v.len() > 0,
        forall|k: int|
            0 <= k < v.len() ==> o.is_cluster(#[trigger] v[k] as int) && o.has_entry(v[k] as int)
                && o.entry(v[k] as int) == 0,
        table_extended(o, f, s, v),
    ensures
        f.is_file_chain((s + v)[0] as int, s + v),
{
    let n = s.len() as int;
    let m = v.len() as int;
    let u = s + v;
    if n > 0 {
        o.lemma_chain_distinct(s[0] as int, s);
        assert(s.last() == s[n - 1]);
        assert forall|k: int| 0 <= k < n implies o.is_cluster(#[trigger] s[k] as int)
            && !allocator::among(v, m, s[k] as int) by {
            grow::lemma_chain_taken(o, s[0] as int, s, k);
            if allocator::among(v, m, s[k] as int) {
                let j = choose|j: int| 0 <= j < v.len() && #[trigger] v[j] == s[k] as int;
                assert(o.entry(v[j] as int) == 0);
            }
        }
    }
    assert forall|k: int| 0 <= k < u.len() implies f.is_cluster(#[trigger] u[k] as int)
        && f.has_entry(u[k] as int) && u[k] < EOC_MARKER by {
        if k < n {
            assert(u[k] == s[k]);
            assert(o.is_cluster(s[k] as int));
        } else {
            assert(u[k] == v[k - n]);
        }
    }
    assert forall|k: int| 0 <= k < u.len() - 1 implies #[trigger] f.entry(u[k] as int) == u[k + 1] by {
        if k < n - 1 {
            assert(u[k] == s[k]);
            assert(o.is_cluster(s[k] as int));
            assert(s[k] != s[n - 1]);
            assert(o.entry(s[k] as int) == s[k + 1]);
            assert(f.entry(s[k] as int) == o.entry(s[k] as int));
        } else if k == n - 1 {
            assert(u[k] == s.last());
            assert(o.has_entry(s.last() as int));
        } else {
            assert(u[k] == v[k - n]);
            assert(f.entry(v[k - n] as int) == v[k - n + 1]);
        }
    }
    assert(u.last() == v[m - 1]);
    assert(f.entry(v[m - 1] as int) == EOC_MARKER as int);
}

/// An extended table is in step with the bitmap of the allocation.
proof fn lemma_bits_extended<D: BlockDevice>(
    o: Fat32SuperBlock<D>,
    a: Fat32SuperBlock<D>,
    f: Fat32SuperBlock<D>,
    s: Seq<u32>,
    v: Seq<u32>,
)
    requires
        o.sound(),
        f.sound(),
        a.tracked_ok(),
        a.bpb == o.bpb,
        f.bpb == o.bpb,
        f.alloc_bitmap == a.alloc_bitmap,
        s.len() > 0 ==> o.is_file_chain(s[0] as int, s),
        v.len() > 0,
        a.entries_set(o, v, v.len() as int, EOC_MARKER as int),
        forall|k: int|
            0 <= k < v.len() ==> o.is_cluster(#[trigger] v[k] as int) && o.has_entry(v[k] as int)
                && o.entry(v[k] as int) == 0,
        table_extended(o, f, s, v),
    ensures
        f.tracked_ok(),
{
    let n = s.len() as int;
    let m = v.len() as int;
    if f.alloc_bitmap is Some {
        let b = f.alloc_bitmap->0;
        assert forall|i: int| 0 <= i < f.bpb.total_clus implies #[trigger] b.bit(i) == (f.entry(
            i + 2,
        ) != 0) by {
            let x = i + 2;
            assert(o.has_entry(x));
            assert(a.entry(x) != 0 <==> b.bit(i)) by {
                let ab = a.alloc_bitmap->0;
                assert(ab.bit(i) == (a.entry(i + 2) != 0));
            }
            if allocator::among(v, m, x) {
                let j = choose|j: int| 0 <= j < m && #[trigger] v[j] == x;
                assert(a.entry(x) == EOC_MARKER);
                if j < m - 1 {
                    assert(o.is_cluster(v[j + 1] as int));
                }
                assert(f.entry(v[j] as int) != 0);
            } else if n > 0 && x == s.last() {
                assert(s.last() == s[n - 1]);
                grow::lemma_chain_taken(o, s[0] as int, s, n - 1);
                assert(a.entry(x) == o.entry(x));
                assert(o.is_cluster(v[0] as int));
            } else {
                assert(f.entry(x) == o.entry(x));
                assert(a.entry(x) == o.entry(x));
            }
        }
    }
}

/// Allocating, linking, hanging behind the tail and clearing extends the chain.
proof fn lemma_extended<D: BlockDevice>(
    o: Fat32SuperBlock<D>,
    a: Fat32SuperBlock<D>,
    l: Fat32SuperBlock<D>,
    t: Fat32SuperBlock<D>,
    f: Fat32SuperBlock<D>,
    s: Seq<u32>,
    v: Seq<u32>,
    tail: Option<u32>,
    offset: int,
    end: int,
)
    requires
        o.tracked_ok(),
        o.is_tail_of(s, tail, s.len() as int),
        0 < v.len() <= 0xFFFF_FFFF,
        a.allocated(o, v),
        a.tracked_ok(),
        v.no_duplicates(),
        forall|k: int|
            0 <= k < v.len() ==> o.is_cluster(#[trigger] v[k] as int) && o.has_entry(v[k] as int)
                && o.entry(v[k] as int) == 0,
        l.sound(),
        l.same_rest(a),
        l.same_data(a),
        l.linked_up(a, v, v.len() - 1),
        t.sound(),
        t.same_rest(l),
        t.same_data(l),
        match tail {
            Some(c) => t.entry_set(l, c as int, v[0] as int % 0x1000_0000),
            None => t.same_table(l),
        },
        f.inv(),
        f.same_rest(t),
        f.zeroed(t, v, v.len() as int, s.len() as int, offset, end),
    ensures
        f.extended(o, s, v, offset, end),
{
    lemma_table_extended(o, a, l, t, f, s, v, tail);
    lemma_chain_extended(o, f, s, v);
    lemma_bits_extended(o, a, f, s, v);
    lemma_extended_data(o, a, l, t, f, s.len() as int, v, offset, end);
}

/// What the clusters hold after an extension.
proof fn lemma_extended_data<D: BlockDevice>(
    o: Fat32SuperBlock<D>,
    a: Fat32SuperBlock<D>,
    l: Fat32SuperBlock<D>,
    t: Fat32SuperBlock<D>,
    f: Fat32SuperBlock<D>,
    n: int,
    v: Seq<u32>,
    offset: int,
    end: int,
)
    requires
        o.bpb.wf(),
        a.bpb == o.bpb,
        l.bpb == o.bpb,
        t.bpb == o.bpb,
        f.bpb == o.bpb,
        v.no_duplicates(),
        a.same_data(o),
        l.same_data(a),
        t.same_data(l),
        f.zeroed(t, v, v.len() as int, n, offset, end),
    ensures
        forall|j: int| #![trigger v[j]]
            0 <= j < v.len() ==> f.data(v[j] as int) == (if is_covered(
                n + j,
                o.bpb.byts_per_clus as int,
                offset,
                end,
            ) {
                o.data(v[j] as int)
            } else {
                grow::zeros(o.bpb.byts_per_clus as int)
            }),
        forall|x: int|
            2 <= x < 0x1_0000_0000 && !allocator::among(v, v.len() as int, x)
                ==> #[trigger] f.data(x) == o.data(x),
{
    let m = v.len() as int;
    assert forall|j: int| #![trigger v[j]] 0 <= j < m implies f.data(v[j] as int) == (
    if is_covered(n + j, o.bpb.byts_per_clus as int, offset, end) {
        o.data(v[j] as int)
    } else {
        grow::zeros(o.bpb.byts_per_clus as int)
    }) by {
        a.lemma_data_same(o, v[j] as int);
        l.lemma_data_same(a, v[j] as int);
        t.lemma_data_same(l, v[j] as int);
    }
    assert forall|x: int|
        2 <= x < 0x1_0000_0000 && !allocator::among(v, m, x) implies #[trigger] f.data(x) == o.data(
        x,
    ) by {
        a.lemma_data_same(o, x);
        l.lemma_data_same(a, x);
        t.lemma_data_same(l, x);
        assert(f.data(x) == t.data(x));
    }
}

} // verus!
