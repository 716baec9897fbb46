//! Cluster chains.

use vstd::prelude::*;

use crate::blockdriver::traits::BlockDevice;
use crate::fat32::allocator;
use crate::fat32::bitmap::AllocBitmap;
use crate::fat32::superblock::{Fat32SuperBlock, EOC_MARKER, FREE_CLUSTER};
use crate::vfs::VfsError;

verus! {

impl<D: BlockDevice> Fat32SuperBlock<D> {
    /// The cluster that `k` links from `c` lead to.
    pub open spec fn follow(self, c: int, k: int) -> int
        decreases k,
    {
        if k <= 0 {
            c
        } else {
            self.entry(self.follow(c, k - 1))
        }
    }

    /// The table has entries for the first `n` clusters from `c` on.
    pub open spec fn linked(self, c: int, n: int) -> bool {
        forall|k: int| 0 <= k < n ==> self.has_entry(#[trigger] self.follow(c, k))
    }

    /// `s` is the chain from `first` on: each cluster leads to the next, and the last
    /// is marked as the end.
    pub open spec fn is_chain(self, first: int, s: Seq<u32>) -> bool {
        &&& s.len() > 0
        &&& s[0] == first
        &&& forall|k: int| 0 <= k < s.len() ==> self.has_entry(#[trigger] s[k] as int) && s[k]
            < EOC_MARKER
        &&& forall|k: int|
            0 <= k < s.len() - 1 ==> #[trigger] self.entry(s[k] as int) == s[k + 1]
        &&& self.entry(s.last() as int) >= EOC_MARKER
    }

    /// `s` is what following links from `first` on comes to: clusters of the volume,
    /// none twice, the last of which leads to none.
    pub open spec fn is_walk(self, first: int, s: Seq<u32>) -> bool {
        &&& s.no_duplicates()
        &&& forall|k: int| 0 <= k < s.len() ==> self.is_cluster(#[trigger] s[k] as int)
        &&& forall|k: int|
            0 <= k < s.len() - 1 ==> #[trigger] self.entry(s[k] as int) == s[k + 1]
        &&& if s.len() == 0 {
            !(2 <= first < EOC_MARKER)
        } else {
            s[0] == first && !(2 <= self.entry(s.last() as int) < EOC_MARKER)
        }
    }

    /// Where all entries are the same, so are the links.
    pub proof fn lemma_follow_same(self, o: Self, c: int, n: int, k: int)
        requires
            self.same_table(o),
            o.linked(c, n),
            0 <= k <= n,
        ensures
            self.follow(c, k) == o.follow(c, k),
        decreases k,
    {
        if k > 0 {
            self.lemma_follow_same(o, c, n, k - 1);
            assert(o.has_entry(o.follow(c, k - 1)));
        }
    }

    /// A chain is what following its links comes to.
    pub proof fn lemma_chain_follow(self, first: int, s: Seq<u32>, k: int)
        requires
            self.is_chain(first, s),
            0 <= k < s.len(),
        ensures
            self.follow(first, k) == s[k],
        decreases k,
    {
        if k > 0 {
            self.lemma_chain_follow(first, s, k - 1);
            assert(self.entry(s[k - 1] as int) == s[k]);
        }
    }

    /// There is one chain from a cluster on.
    pub proof fn lemma_chain_unique(self, first: int, s: Seq<u32>, t: Seq<u32>)
        requires
            self.is_chain(first, s),
            self.is_chain(first, t),
        ensures
            s == t,
    {
        let (a, b) = if s.len() <= t.len() {
            (s, t)
        } else {
            (t, s)
        };
        assert forall|k: int| 0 <= k < a.len() implies a[k] == b[k] by {
            self.lemma_chain_follow(first, a, k);
            self.lemma_chain_follow(first, b, k);
        }
        if a.len() < b.len() {
            let n = a.len() as int;
            assert(self.entry(b[n - 1] as int) == b[n]);
            assert(b[n] < EOC_MARKER);
            assert(a.last() == b[n - 1]);
        }
        assert(s =~= t);
    }

    /// No cluster occurs twice in a chain.
    pub proof fn lemma_chain_distinct(self, first: int, s: Seq<u32>)
        requires
            self.is_chain(first, s),
        ensures
            s.no_duplicates(),
    {
        assert forall|i: int, j: int| 0 <= i < s.len() && 0 <= j < s.len() && i != j implies s[i]
            != s[j] by {
            if i < j {
                self.lemma_chain_no_repeat(s, i, j);
            } else {
                self.lemma_chain_no_repeat(s, j, i);
            }
        }
    }

    proof fn lemma_chain_no_repeat(self, s: Seq<u32>, i: int, j: int)
        requires
            s.len() > 0,
            self.is_chain(s[0] as int, s),
            0 <= i < j < s.len(),
        ensures
            s[i] != s[j],
        decreases s.len() - j,
    {
        assert(self.entry(s[i] as int) == s[i + 1]);
        assert(s[i + 1] < EOC_MARKER);
        if s[i] == s[j] && j < s.len() - 1 {
            assert(self.entry(s[j] as int) == s[j + 1]);
            self.lemma_chain_no_repeat(s, i + 1, j + 1);
        }
    }

    /// The number of clusters in the chain from `start` on.
    pub fn chain_len(&mut self, start: u32) -> (r: Result<u32, VfsError>)
        requires
            old(self).inv(),
        ensures
            final(self).quiet(*old(self)),
            start == 0 || start >= EOC_MARKER ==> r == Ok::<u32, VfsError>(0),
            match r {
                Ok(n) => start != 0 && start < EOC_MARKER && old(self).sound() && old(self).linked(
                    start as int,
                    n as int,
                ) ==> n >= 1 && old(self).follow(start as int, n as int) >= EOC_MARKER && forall|
                    k: int,
                |
                    0 < k < n ==> #[trigger] old(self).follow(start as int, k) < EOC_MARKER,
                Err(e) => e == VfsError::IOError && (final(self).faults() > old(self).faults()
                    || forall|s: Seq<u32>| #[trigger]
                    old(self).is_file_chain(start as int, s) ==> !old(self).sound()),
            },
    {
        if start == 0 || start >= EOC_MARKER {
            return Ok(0);
        }
        let mut n: u32 = 1;
        let mut c: u32 = start;
        let ghost o = *self;
        let ghost s = start as int;
        loop
            invariant
                o == *old(self),
                s == start,
                start != 0,
                start < EOC_MARKER,
                self.quiet(o),
                1 <= n <= o.bpb.total_clus + 2,
                o.bpb.total_clus + 2 <= u32::MAX,
                c < EOC_MARKER,
                o.sound() && o.linked(s, n - 1) ==> c == o.follow(s, n - 1) && forall|k: int|
                    0 < k < n ==> #[trigger] o.follow(s, k) < EOC_MARKER,
                forall|t: Seq<u32>| #[trigger]
                    o.is_file_chain(s, t) && o.sound() ==> n <= t.len() && c == t[n - 1],
            decreases o.bpb.total_clus + 3 - n,
        {
            let ghost m = *self;
            let next: u32 = match self.read_fat_entry(c) {
                Ok(v) => v,
                Err(e) => {
                    proof {
                        self.lemma_quiet_trans(m, o);
                    }
                    return Err(e);
                },
            };
            proof {
                self.lemma_quiet_trans(m, o);
                if o.sound() && o.linked(s, n as int) {
                    assert(o.linked(s, n - 1));
                    assert(o.has_entry(o.follow(s, n - 1)));
                    assert(m.entry(c as int) == o.entry(c as int));
                    assert(next == o.follow(s, n as int));
                }
                assert forall|t: Seq<u32>| #[trigger]
                    o.is_file_chain(s, t) && o.sound() && next < EOC_MARKER implies n < t.len()
                    && next == t[n as int] && n < o.bpb.total_clus by {
                    assert(o.has_entry(t[n - 1] as int));
                    assert(m.entry(c as int) == o.entry(c as int));
                    o.lemma_file_chain_len(s, t);
                    if n == t.len() {
                        assert(t.last() == t[n - 1]);
                    } else {
                        assert(o.entry(t[n - 1] as int) == t[n - 1 + 1]);
                    }
                }
            }
            if next >= EOC_MARKER {
                return Ok(n);
            }
            c = next;
            if n >= self.bpb.total_clus + 2 {
                return Err(VfsError::IOError);
            }
            n = n + 1;
        }
    }

    /// The cluster `index` links after `start`.
    pub fn chain_cluster_at(&mut self, start: u32, index: u32) -> (r: Result<u32, VfsError>)
        requires
            old(self).inv(),
        ensures
            final(self).quiet(*old(self)),
            index == 0 ==> r == Ok::<u32, VfsError>(start),
            match r {
                Ok(c) => old(self).sound() && old(self).linked(start as int, index as int) ==> c
                    == old(self).follow(start as int, index as int) && forall|k: int|
                    0 < k <= index ==> #[trigger] old(self).follow(start as int, k) < EOC_MARKER,
                Err(e) => e == VfsError::IOError && (final(self).faults() > old(self).faults()
                    || forall|s: Seq<u32>| #[trigger]
                    old(self).is_chain(start as int, s) && index < s.len() ==> !old(self).sound()),
            },
    {
        let mut current: u32 = start;
        let ghost o = *self;
        let ghost s = start as int;
        let mut i: u32 = 0;
        while i < index
            invariant
                o == *old(self),
                s == start,
                i <= index,
                i == 0 ==> current == start,
                self.quiet(o),
                o.sound() && o.linked(s, i as int) ==> current == o.follow(s, i as int) && forall|
                    k: int,
                |
                    0 < k <= i ==> #[trigger] o.follow(s, k) < EOC_MARKER,
                forall|t: Seq<u32>| #[trigger]
                    o.is_chain(s, t) && index < t.len() && o.sound() ==> current == t[i as int],
            decreases index - i,
        {
            let ghost m = *self;
            let next = self.read_fat_entry(current);
            proof {
                self.lemma_quiet_trans(m, o);
            }
            match next {
                Ok(v) => {
                    proof {
                        if o.sound() && o.linked(s, i + 1) {
                            assert(o.linked(s, i as int));
                            assert(o.has_entry(o.follow(s, i as int)));
                            assert(m.entry(current as int) == o.entry(current as int));
                            assert(v == o.follow(s, i + 1));
                        }
                        assert forall|t: Seq<u32>| #[trigger]
                            o.is_chain(s, t) && index < t.len() && o.sound() implies v == t[i + 1]
                            && v < EOC_MARKER by {
                            assert(o.has_entry(t[i as int] as int));
                            assert(m.entry(current as int) == o.entry(current as int));
                            assert(o.entry(t[i as int] as int) == t[i + 1]);
                            assert(t[i + 1] < EOC_MARKER);
                        }
                    }
                    current = v;
                },
                Err(e) => return Err(e),
            }
            if current >= EOC_MARKER {
                return Err(VfsError::IOError);
            }
            i = i + 1;
        }
        Ok(current)
    }

    /// The bits of the first `n` clusters of `v` are clear, and all others as in `o`.
    pub open spec fn bits_cleared(self, o: Self, v: Seq<u32>, n: int) -> bool {
        match (self.alloc_bitmap, o.alloc_bitmap) {
            (Some(b), Some(ob)) => b.capacity() == ob.capacity() && forall|j: int|
                0 <= j < o.bpb.total_clus ==> #[trigger] b.bit(j) == (ob.bit(j)
                    && !allocator::among(v, n, j + 2)),
            (None, None) => true,
            (_, _) => false,
        }
    }

    /// From `o`, the first `n` clusters of `v` were freed.
    pub open spec fn freed(self, o: Self, v: Seq<u32>, n: int) -> bool {
        &&& self.free_clus_count as int == (o.free_clus_count + n) % 0x1_0000_0000
        &&& self.next_alloc_hint == o.next_alloc_hint
        &&& self.bits_cleared(o, v, n)
        &&& self.sound()
        &&& self.same_data(o)
        &&& self.entries_set(o, v, n, 0)
    }

    /// Keeps the bitmap in step with a cluster that was freed.
    pub fn bitmap_mark_free(&mut self, cluster: u32)
        requires
            old(self).inv(),
        ensures
            final(self).inv(),
            final(self).device == old(self).device,
            final(self).fat_cache == old(self).fat_cache,
            final(self).same_but_alloc(*old(self)),
            final(self).next_alloc_hint == old(self).next_alloc_hint,
            final(self).free_clus_count == old(self).free_clus_count,
            match (final(self).alloc_bitmap, old(self).alloc_bitmap) {
                (Some(b), Some(ob)) => b.capacity() == ob.capacity() && forall|j: int|
                    0 <= j < old(self).bpb.total_clus ==> #[trigger] b.bit(j) == (ob.bit(j)
                        && cluster != j + 2),
                (None, None) => true,
                (_, _) => false,
            },
    {
        let total: usize = self.bpb.total_clus as usize;
        match &mut self.alloc_bitmap {
            Some(b) => {
                match AllocBitmap::bit_index(cluster, total) {
                    Some(i) => {
                        b.clear(i);
                    },
                    None => {},
                }
            },
            None => {},
        }
    }

    /// From `o`, the cluster `c` was freed.
    pub open spec fn one_freed(self, o: Self, c: int) -> bool {
        &&& self.free_clus_count == o.free_clus_count.wrapping_add(1)
        &&& self.next_alloc_hint == o.next_alloc_hint
        &&& match (self.alloc_bitmap, o.alloc_bitmap) {
            (Some(b), Some(ob)) => b.capacity() == ob.capacity() && forall|j: int|
                0 <= j < o.bpb.total_clus ==> #[trigger] b.bit(j) == (ob.bit(j) && c != j + 2),
            (None, None) => true,
            (_, _) => false,
        }
        &&& o.sound() && o.has_entry(c) ==> self.sound() && self.same_data(o) && self.entry_set(
            o,
            c,
            0,
        )
    }

    /// Frees the cluster `c` and returns what its entry was.
    fn free_one(&mut self, c: u32) -> (r: Result<u32, VfsError>)
        requires
            old(self).inv(),
            c < EOC_MARKER,
        ensures
            final(self).inv(),
            final(self).same_but_alloc(*old(self)),
            final(self).next_alloc_hint == old(self).next_alloc_hint,
            match r {
                Ok(next) => next == old(self).entry(c as int) && final(self).one_freed(
                    *old(self),
                    c as int,
                ),
                Err(e) => e == VfsError::IOError && final(self).quiet(*old(self))
                    && final(self).faults() > old(self).faults(),
            },
    {
        let ghost o = *self;
        let next: u32 = match self.read_fat_entry(c) {
            Ok(v) => v,
            Err(e) => return Err(e),
        };
        let ghost m = *self;
        match self.write_fat_entry(c, FREE_CLUSTER) {
            Ok(_) => {},
            Err(e) => {
                proof {
                    self.lemma_quiet_trans(m, o);
                }
                return Err(e);
            },
        }
        let ghost w = *self;
        self.bitmap_mark_free(c);
        self.free_clus_count = self.free_clus_count.wrapping_add(1);
        proof {
            if o.sound() && o.has_entry(c as int) {
                assert(self.sound());
                assert(self.same_data(w));
                self.lemma_same_source(w);
                w.lemma_same_data_trans(m, o);
                self.lemma_same_data_trans(w, o);
                assert forall|x: int| o.has_entry(x) implies #[trigger] self.entry(x) == (if x == c {
                    0
                } else {
                    o.entry(x)
                }) by {
                    assert(self.entry(x) == w.entry(x));
                    assert(m.has_entry(x));
                    assert(m.entry(x) == o.entry(x));
                }
            }
        }
        Ok(next)
    }

    /// Clusters of the volume, none twice, are not more than the volume has.
    pub proof fn lemma_distinct_clusters(self, s: Seq<u32>)
        requires
            s.no_duplicates(),
            forall|k: int| 0 <= k < s.len() ==> self.is_cluster(#[trigger] s[k] as int),
        ensures
            s.len() <= self.bpb.total_clus,
    {
        let v = s.map_values(|c: u32| c as int);
        let all = vstd::set_lib::set_int_range(2, 2 + self.bpb.total_clus as int);
        assert(v.no_duplicates());
        v.unique_seq_to_set();
        vstd::set_lib::lemma_int_range(2, 2 + self.bpb.total_clus as int);
        assert forall|x: int| v.to_set().contains(x) implies all.contains(x) by {
            let k = choose|k: int| 0 <= k < v.len() && v[k] == x;
            assert(self.is_cluster(s[k] as int));
        }
        vstd::set_lib::lemma_len_subset(v.to_set(), all);
    }

    /// A chain of clusters of the volume has no more of them than the volume.
    pub proof fn lemma_file_chain_len(self, first: int, s: Seq<u32>)
        requires
            self.is_file_chain(first, s),
        ensures
            1 <= s.len() <= self.bpb.total_clus,
    {
        self.lemma_chain_distinct(first, s);
        self.lemma_distinct_clusters(s);
    }

    /// There is one walk from a cluster on.
    pub proof fn lemma_walk_unique(self, first: int, s: Seq<u32>, t: Seq<u32>)
        requires
            self.geometry_ok(),
            self.is_walk(first, s),
            self.is_walk(first, t),
        ensures
            s == t,
    {
        if s.len() == 0 || t.len() == 0 {
            if s.len() > 0 {
                assert(self.is_cluster(s[0] as int));
            }
            if t.len() > 0 {
                assert(self.is_cluster(t[0] as int));
            }
            assert(s =~= t);
        } else {
            let (a, b) = if s.len() <= t.len() {
                (s, t)
            } else {
                (t, s)
            };
            assert forall|k: int| 0 <= k < a.len() implies a[k] == b[k] by {
                self.lemma_walks_agree(a, b, k);
            }
            if a.len() < b.len() {
                let n = a.len() as int;
                assert(self.entry(b[n - 1] as int) == b[n]);
                assert(self.is_cluster(b[n] as int));
                assert(a.last() == b[n - 1]);
            }
            assert(s =~= t);
        }
    }

    proof fn lemma_walks_agree(self, a: Seq<u32>, b: Seq<u32>, k: int)
        requires
            0 <= k < a.len() <= b.len(),
            self.is_walk(a[0] as int, a),
            self.is_walk(a[0] as int, b),
        ensures
            a[k] == b[k],
        decreases k,
    {
        if k > 0 {
            self.lemma_walks_agree(a, b, k - 1);
            assert(self.entry(a[k - 1] as int) == a[k]);
            assert(self.entry(b[k - 1] as int) == b[k]);
        }
    }

    /// A chain of clusters of the volume is a walk.
    pub proof fn lemma_chain_is_walk(self, first: int, s: Seq<u32>)
        requires
            self.is_chain(first, s),
            forall|k: int| 0 <= k < s.len() ==> self.is_cluster(#[trigger] s[k] as int),
        ensures
            self.is_walk(first, s),
    {
        self.lemma_chain_distinct(first, s);
    }

    /// Frees the clusters from `cluster` on, link by link.
    pub fn free_chain(&mut self, cluster: u32) -> (r: Result<(), VfsError>)
        requires
            old(self).inv(),
        ensures
            final(self).inv(),
            final(self).same_but_alloc(*old(self)),
            final(self).next_alloc_hint == old(self).next_alloc_hint,
            !(2 <= cluster < EOC_MARKER) ==> r is Ok && *final(self) == *old(self),
            match r {
                Ok(_) => forall|s: Seq<u32>| #[trigger]
                    old(self).is_walk(cluster as int, s) && old(self).sound() ==> final(self).freed(
                        *old(self),
                        s,
                        s.len() as int,
                    ),
                Err(e) => e == VfsError::IOError && (forall|s: Seq<u32>| #[trigger]
                    old(self).is_walk(cluster as int, s) && old(self).sound()
                        ==> final(self).sound() && final(self).same_data(*old(self))
                        && final(self).entries_kept(
                        *old(self),
                        s,
                    ) && final(self).faults() > old(self).faults()),
            },
    {
        let mut c: u32 = cluster;
        let mut iters: u32 = 0;
        let ghost o = *self;
        let ghost first = cluster as int;
        let ghost known = o.sound() && exists|s: Seq<u32>| #[trigger] o.is_walk(first, s);
        let ghost s = choose|s: Seq<u32>| #[trigger] o.is_walk(first, s);
        proof {
            assert forall|t: Seq<u32>| #[trigger] o.is_walk(first, t) && o.sound() implies t
                == s by {
                o.lemma_walk_unique(first, s, t);
            }
        }
        while c >= 2 && c < EOC_MARKER
            invariant
                o == *old(self),
                first == cluster,
                self.inv(),
                self.same_but_alloc(o),
                self.next_alloc_hint == o.next_alloc_hint,
                iters <= o.bpb.total_clus + 2,
                o.bpb.total_clus + 2 <= u32::MAX,
                iters == 0 ==> c == cluster && *self == o,
                !(2 <= cluster < EOC_MARKER) ==> iters == 0,
                known == (o.sound() && exists|s: Seq<u32>| #[trigger] o.is_walk(first, s)),
                known ==> o.is_walk(first, s),
                forall|t: Seq<u32>| #[trigger] o.is_walk(first, t) && o.sound() ==> t == s,
                !known ==> forall|t: Seq<u32>| #[trigger] o.is_walk(first, t) ==> !o.sound(),
                known ==> iters <= s.len() && self.freed(o, s, iters as int),
                known && iters < s.len() ==> c == s[iters as int],
                known && iters == s.len() ==> !(2 <= c < EOC_MARKER),
            decreases o.bpb.total_clus + 3 - iters,
        {
            let ghost m = *self;
            let ghost n = iters as int;
            proof {
                if known {
                    assert(o.is_cluster(s[n] as int));
                    if allocator::among(s, n, c as int) {
                        let k = choose|k: int| 0 <= k < n && #[trigger] s[k] == c as int;
                        assert(s[k] != s[n]);
                    }
                    assert(m.entry(c as int) == o.entry(c as int));
                }
            }
            let next: u32 = match self.free_one(c) {
                Ok(v) => v,
                Err(e) => {
                    proof {
                        if known {
                            self.lemma_same_data_trans(m, o);
                            lemma_partly_kept(o, m, *self, s, n);
                        }
                    }
                    return Err(e);
                },
            };
            proof {
                if known {
                    lemma_freed_step(o, m, *self, s, n);
                }
            }
            c = next;
            if iters >= self.bpb.total_clus + 2 {
                proof {
                    if known {
                        o.lemma_distinct_clusters(s);
                        assert(false);
                    }
                }
                return Err(VfsError::IOError);
            }
            iters = iters + 1;
        }
        Ok(())
    }
}

/// One more element.
pub proof fn lemma_among_step(v: Seq<u32>, n: int, x: int)
    requires
        0 <= n < v.len(),
    ensures
        allocator::among(v, n + 1, x) == (allocator::among(v, n, x) || v[n] == x),
{
    if allocator::among(v, n, x) {
        let k = choose|k: int| 0 <= k < n && #[trigger] v[k] == x;
        assert(allocator::among(v, n + 1, x));
    }
    if v[n] == x {
        assert(allocator::among(v, n + 1, x));
    }
    if allocator::among(v, n + 1, x) && v[n] != x {
        let k = choose|k: int| 0 <= k < n + 1 && #[trigger] v[k] == x;
        assert(allocator::among(v, n, x));
    }
}

/// Freeing one cluster more.
proof fn lemma_freed_step<D: BlockDevice>(
    o: Fat32SuperBlock<D>,
    m: Fat32SuperBlock<D>,
    next: Fat32SuperBlock<D>,
    s: Seq<u32>,
    n: int,
)
    requires
        0 <= n < s.len(),
        m.bpb == o.bpb,
        next.bpb == o.bpb,
        m.freed(o, s, n),
        next.one_freed(m, s[n] as int),
        m.has_entry(s[n] as int),
    ensures
        next.freed(o, s, n + 1),
{
    next.lemma_same_data_trans(m, o);
    assert forall|x: int| o.has_entry(x) implies #[trigger] next.entry(x) == (if allocator::among(
        s,
        n + 1,
        x,
    ) {
        0
    } else {
        o.entry(x)
    }) by {
        assert(m.has_entry(x));
        assert(m.entry(x) == (if allocator::among(s, n, x) {
            0
        } else {
            o.entry(x)
        }));
        lemma_among_step(s, n, x);
    }
    if next.alloc_bitmap is Some && o.alloc_bitmap is Some {
        let b = next.alloc_bitmap->0;
        let ob = o.alloc_bitmap->0;
        assert forall|j: int| 0 <= j < o.bpb.total_clus implies #[trigger] b.bit(j) == (ob.bit(j)
            && !allocator::among(s, n + 1, j + 2)) by {
            lemma_among_step(s, n, j + 2);
        }
    }
}

/// A quiet step after some clusters of `s` were freed leaves all others alone.
proof fn lemma_partly_kept<D: BlockDevice>(
    o: Fat32SuperBlock<D>,
    m: Fat32SuperBlock<D>,
    next: Fat32SuperBlock<D>,
    s: Seq<u32>,
    n: int,
)
    requires
        next.quiet(m),
        m.sound(),
        m.bpb == o.bpb,
        0 <= n <= s.len(),
        m.entries_set(o, s, n, 0) || m.entries_kept(o, s),
    ensures
        next.entries_kept(o, s),
{
    assert forall|x: int| o.has_entry(x)
        && !allocator::among(s, s.len() as int, x) implies #[trigger] next.entry(
        x,
    ) == o.entry(x) by {
        assert(m.has_entry(x));
        assert(next.entry(x) == m.entry(x));
        if allocator::among(s, n, x) {
            let k = choose|k: int| 0 <= k < n && #[trigger] s[k] == x;
            assert(allocator::among(s, s.len() as int, x));
        }
    }
}

} // verus!
