//! Growing and shrinking chains.

use vstd::prelude::*;

use crate::blockdriver::traits::BlockDevice;
use crate::fat32::allocator;
use crate::fat32::chain;
use crate::fat32::superblock::{Fat32SuperBlock, EOC_MARKER};
use crate::vfs::VfsError;

verus! {

/// A cluster of zeros.
pub open spec fn zeros(n: int) -> Seq<u8> {
    Seq::new(n as nat, |i: int| 0u8)
}

impl<D: BlockDevice> Fat32SuperBlock<D> {
    /// The volume is sound, and the bitmap says of each cluster what the table says.
    pub open spec fn tracked_ok(self) -> bool {
        &&& self.sound()
        &&& self.alloc_bitmap matches Some(b) ==> forall|i: int|
            0 <= i < self.bpb.total_clus ==> #[trigger] b.bit(i) == (self.entry(i + 2) != 0)
    }

    /// What was taken or held data in `o` still does.
    pub open spec fn in_use_same(self, o: Self) -> bool {
        &&& self.sound()
        &&& self.bpb == o.bpb
        &&& forall|x: int|
            o.has_entry(x) && o.entry(x) != 0 ==> #[trigger] self.entry(x) == o.entry(x)
        &&& forall|x: int|
            2 <= x && o.has_entry(x) && o.entry(x) != 0 ==> #[trigger] self.data(x) == o.data(x)
    }

    /// What was taken in `o`, but for the clusters `d`, still is, and holds what it held.
    pub open spec fn in_use_but(self, o: Self, d: Seq<u32>) -> bool {
        &&& self.sound()
        &&& self.bpb == o.bpb
        &&& forall|x: int|
            o.has_entry(x) && o.entry(x) != 0 && !allocator::among(d, d.len() as int, x)
                ==> #[trigger] self.entry(x) == o.entry(x)
        &&& forall|x: int|
            2 <= x && o.has_entry(x) && o.entry(x) != 0 && !allocator::among(d, d.len() as int, x)
                ==> #[trigger] self.data(x) == o.data(x)
    }

    /// A volume that is the same uses its clusters as it did.
    pub proof fn lemma_in_use_quiet(self, o: Self, d: Seq<u32>)
        requires
            o.sound(),
            self.quiet(o),
        ensures
            self.in_use_but(o, d),
    {
        assert forall|x: int| 2 <= x && o.has_entry(x) implies #[trigger] self.data(x) == o.data(
            x,
        ) by {
            self.lemma_data_same(o, x);
        }
    }

    /// A step from a volume that is the same.
    pub proof fn lemma_in_use_from(self, q: Self, o: Self, d: Seq<u32>)
        requires
            o.sound(),
            q.quiet(o),
            self.in_use_but(q, d),
        ensures
            self.in_use_but(o, d),
    {
        assert forall|x: int|
            o.has_entry(x) && o.entry(x) != 0 && !allocator::among(
                d,
                d.len() as int,
                x,
            ) implies #[trigger] self.entry(x) == o.entry(x) by {
            assert(q.entry(x) == o.entry(x));
            assert(q.has_entry(x));
        }
        assert forall|x: int|
            2 <= x && o.has_entry(x) && o.entry(x) != 0 && !allocator::among(
                d,
                d.len() as int,
                x,
            ) implies #[trigger] self.data(x) == o.data(x) by {
            assert(q.entry(x) == o.entry(x));
            assert(q.has_entry(x));
            q.lemma_data_same(o, x);
        }
    }

    /// The clusters that an allocation chooses are free, and the bitmap stays in step.
    pub proof fn lemma_allocated(self, o: Self, v: Seq<u32>)
        requires
            o.tracked_ok(),
            o.bpb.total_clus > 0,
            self.allocated(o, v),
            o.is_choice(v.len() as int, v),
        ensures
            self.tracked_ok(),
            forall|k: int|
                0 <= k < v.len() ==> o.is_cluster(#[trigger] v[k] as int) && o.has_entry(
                    v[k] as int,
                ) && o.entry(v[k] as int) == 0,
    {
        let total = o.bpb.total_clus as int;
        let picked = v.map_values(|c: u32| c - 2);
        if o.alloc_bitmap is Some {
            allocator::lemma_pick(
                o.taken(),
                total,
                o.search_start(),
                v.len() as int,
                picked,
            );
            let ob = o.alloc_bitmap->0;
            assert forall|k: int| 0 <= k < v.len() implies o.is_cluster(#[trigger] v[k] as int)
                && o.has_entry(v[k] as int) && o.entry(v[k] as int) == 0 by {
                assert(picked[k] == v[k] - 2);
                assert(!(o.taken())(picked[k]));
                assert(!ob.bit(v[k] - 2));
            }
        } else {
            allocator::lemma_free_prefix(o.taken(), total, o.search_start(), total);
            assert forall|k: int| 0 <= k < v.len() implies o.is_cluster(#[trigger] v[k] as int)
                && o.has_entry(v[k] as int) && o.entry(v[k] as int) == 0 by {
                assert(picked[k] == v[k] - 2);
                assert(picked[k] == o.free_list()[k]);
                assert(!(o.taken())(picked[k]));
            }
        }
        if self.alloc_bitmap is Some {
            let b = self.alloc_bitmap->0;
            assert forall|i: int| 0 <= i < self.bpb.total_clus implies #[trigger] b.bit(i) == (
            self.entry(i + 2) != 0) by {
                assert(o.has_entry(i + 2));
                let ob = o.alloc_bitmap->0;
                assert(ob.bit(i) == (o.entry(i + 2) != 0));
            }
        }
    }

    /// A failed allocation leaves what is in use alone.
    pub proof fn lemma_not_allocated(self, o: Self)
        requires
            o.tracked_ok(),
            self.not_allocated(o),
        ensures
            self.in_use_same(o),
    {
        assert forall|x: int| o.has_entry(x) && o.entry(x) != 0 implies #[trigger] self.entry(x)
            == o.entry(x) by {
            if o.is_cluster(x) {
                if o.alloc_bitmap is Some {
                    let ob = o.alloc_bitmap->0;
                    assert(ob.bit(x - 2) == (o.entry(x - 2 + 2) != 0));
                }
                assert((o.taken())(x - 2));
            }
        }
        assert forall|x: int| 2 <= x && o.has_entry(x) && o.entry(x) != 0 implies #[trigger] self.data(
            x,
        ) == o.data(x) by {
            self.lemma_data_same(o, x);
        }
    }

    /// From `o`, the new cluster `c`, filled with zeros, was linked behind `tail`.
    pub open spec fn appended(self, o: Self, tail: int, c: int) -> bool {
        &&& self.tracked_ok()
        &&& self.free_clus_count as int == (o.free_clus_count - 1) % 0x1_0000_0000
        &&& self.next_alloc_hint == c + 1
        &&& o.is_cluster(c)
        &&& o.entry(c) == 0
        &&& c != tail
        &&& forall|x: int|
            o.has_entry(x) ==> #[trigger] self.entry(x) == (if x == tail {
                c
            } else if x == c {
                EOC_MARKER as int
            } else {
                o.entry(x)
            })
        &&& self.data(c) == zeros(o.bpb.byts_per_clus as int)
        &&& forall|x: int|
            2 <= x < 0x1_0000_0000 && x != c ==> #[trigger] self.data(x) == o.data(x)
    }

    /// Allocates a cluster, fills it with zeros and links it behind `tail`.
    pub fn append_cluster(&mut self, tail: u32) -> (r: Result<u32, VfsError>)
        requires
            old(self).inv(),
        ensures
            final(self).inv(),
            final(self).same_but_alloc(*old(self)),
            match r {
                Ok(c) => old(self).tracked_ok() && old(self).is_cluster(tail as int)
                    && old(self).entry(tail as int) != 0 ==> final(self).appended(
                    *old(self),
                    tail as int,
                    c as int,
                ),
                Err(e) => ((e == VfsError::IOError && final(self).faults() > old(self).faults())
                    || (e == VfsError::NoSpace && old(self).short_of(1) && (final(self).faults()
                    == old(self).faults() ==> final(self).quiet(*old(self))))) && (
                old(self).tracked_ok() && old(self).is_cluster(tail as int)
                    ==> final(self).in_use_same(*old(self))),
            },
    {
        let ghost o = *self;
        let new: u32 = match self.alloc_cluster() {
            Ok(c) => c,
            Err(e) => {
                proof {
                    if o.tracked_ok() {
                        self.lemma_not_allocated(o);
                    }
                }
                return Err(e);
            },
        };
        let ghost a = *self;
        match self.zero_cluster(new) {
            Ok(_) => {},
            Err(e) => {
                proof {
                    if o.tracked_ok() {
                        lemma_new_cluster_only(o, a, *self, new);
                    }
                }
                return Err(e);
            },
        }
        let ghost z = *self;
        match self.write_fat_entry(tail, new) {
            Ok(_) => {},
            Err(e) => {
                proof {
                    if o.tracked_ok() {
                        lemma_new_cluster_only(o, a, z, new);
                        lemma_quiet_in_use(o, z, *self);
                    }
                }
                return Err(e);
            },
        }
        proof {
            if o.tracked_ok() && o.is_cluster(tail as int) && o.entry(tail as int) != 0 {
                lemma_appended(o, a, z, *self, tail, new);
            }
        }
        Ok(new)
    }

    /// A chain of clusters of the volume starts at `first`, and the volume is sound.
    pub open spec fn has_chain(self, first: int) -> bool {
        self.sound() && exists|s: Seq<u32>| #[trigger] self.is_file_chain(first, s)
    }

    /// `s` is the chain from `first` on, and all its clusters are of the volume.
    pub open spec fn is_file_chain(self, first: int, s: Seq<u32>) -> bool {
        &&& self.is_chain(first, s)
        &&& forall|k: int| 0 <= k < s.len() ==> self.is_cluster(#[trigger] s[k] as int)
    }

    /// From `o`, the chain `s` has grown by the clusters `new`, which hold zeros.
    pub open spec fn grown(self, o: Self, s: Seq<u32>, new: Seq<u32>) -> bool {
        &&& self.tracked_ok()
        &&& self.bpb == o.bpb
        &&& self.free_clus_count as int == (o.free_clus_count - new.len()) % 0x1_0000_0000
        &&& self.searches_behind(o, new, new.len() > 0)
        &&& self.is_file_chain(s[0] as int, s + new)
        &&& forall|k: int| 0 <= k < new.len() ==> o.entry(#[trigger] new[k] as int) == 0
        &&& forall|x: int|
            o.has_entry(x) && x != s.last() && !allocator::among(new, new.len() as int, x)
                ==> #[trigger] self.entry(x) == o.entry(x)
        &&& forall|k: int|
            0 <= k < new.len() ==> self.data(#[trigger] new[k] as int) == zeros(
                o.bpb.byts_per_clus as int,
            )
        &&& forall|x: int|
            2 <= x < 0x1_0000_0000 && !allocator::among(new, new.len() as int, x)
                ==> #[trigger] self.data(x) == o.data(x)
    }

    /// The last cluster of the chain from `start` on.
    fn find_tail(&mut self, start: u32) -> (r: Result<u32, VfsError>)
        requires
            old(self).inv(),
        ensures
            final(self).quiet(*old(self)),
            match r {
                Ok(t) => forall|s: Seq<u32>| #[trigger]
                    old(self).is_file_chain(start as int, s) && old(self).sound() ==> t == s.last(),
                Err(e) => e == VfsError::IOError && (old(self).has_chain(start as int)
                    ==> final(self).faults() > old(self).faults()),
            },
    {
        let ghost o = *self;
        let ghost first = start as int;
        let ghost known = o.sound() && exists|s: Seq<u32>| #[trigger] o.is_file_chain(first, s);
        let ghost s = choose|s: Seq<u32>| #[trigger] o.is_file_chain(first, s);
        proof {
            assert forall|t: Seq<u32>| #[trigger] o.is_file_chain(first, t) implies t == s by {
                o.lemma_chain_unique(first, s, t);
            }
        }
        let mut tail: u32 = start;
        let mut iters: u32 = 0;
        loop
            invariant
                o == *old(self),
                first == start,
                self.quiet(o),
                o.bpb.total_clus + 2 <= u32::MAX,
                iters <= o.bpb.total_clus + 2,
                known == (o.sound() && exists|s: Seq<u32>| #[trigger] o.is_file_chain(first, s)),
                known ==> o.is_file_chain(first, s),
                forall|t: Seq<u32>| #[trigger] o.is_file_chain(first, t) ==> t == s,
                known ==> iters < s.len() && tail == s[iters as int],
            decreases o.bpb.total_clus + 3 - iters,
        {
            let ghost m = *self;
            let read = self.read_fat_entry(tail);
            proof {
                self.lemma_quiet_trans(m, o);
                if known {
                    assert(o.is_cluster(s[iters as int] as int));
                    assert(m.entry(tail as int) == o.entry(tail as int));
                    if iters < s.len() - 1 {
                        assert(o.entry(s[iters as int] as int) == s[iters + 1]);
                    }
                }
            }
            let next: u32 = match read {
                Ok(v) => v,
                Err(e) => return Err(e),
            };
            if next >= EOC_MARKER {
                return Ok(tail);
            }
            tail = next;
            if iters >= self.bpb.total_clus + 2 {
                proof {
                    if known {
                        o.lemma_file_chain_len(first, s);
                    }
                }
                return Err(VfsError::IOError);
            }
            iters = iters + 1;
        }
    }

    /// Grows the chain from `start` on by `additional` clusters of zeros.
    pub fn extend_chain(&mut self, start: u32, additional: u32) -> (r: Result<(), VfsError>)
        requires
            old(self).inv(),
        ensures
            final(self).inv(),
            final(self).same_but_alloc(*old(self)),
            match r {
                Ok(_) => forall|s: Seq<u32>| #[trigger]
                    old(self).is_file_chain(start as int, s) && old(self).tracked_ok() ==> exists|
                        new: Seq<u32>,
                    |
                        new.len() == additional && #[trigger] final(self).grown(
                            *old(self),
                            s,
                            new,
                        ),
                Err(VfsError::NoSpace) => (old(self).has_chain(start as int)
                    && old(self).tracked_ok() ==> old(self).short_of(additional as int)) && (
                final(self).faults() == old(self).faults() ==> forall|s: Seq<u32>| #[trigger]
                    old(self).is_file_chain(start as int, s) && old(self).tracked_ok() ==> exists|
                        new: Seq<u32>,
                    |
                        new.len() < additional && #[trigger] final(self).grown(
                            *old(self),
                            s,
                            new,
                        )),
                Err(e) => e == VfsError::IOError && (old(self).has_chain(start as int)
                    ==> final(self).faults() > old(self).faults()),
            },
    {
        let ghost o = *self;
        let ghost first = start as int;
        let ghost known = o.tracked_ok() && exists|s: Seq<u32>| #[trigger]
            o.is_file_chain(first, s);
        let ghost s = choose|s: Seq<u32>| #[trigger] o.is_file_chain(first, s);
        proof {
            assert forall|t: Seq<u32>| #[trigger] o.is_file_chain(first, t) implies t == s by {
                o.lemma_chain_unique(first, s, t);
            }
        }
        assert(known ==> o.has_chain(first));
        let mut tail: u32 = match self.find_tail(start) {
            Ok(t) => t,
            Err(e) => return Err(e),
        };
        let ghost mut new: Seq<u32> = Seq::empty();
        proof {
            if known {
                let m = *self;
                if m.alloc_bitmap is Some {
                    let b = m.alloc_bitmap->0;
                    assert forall|i: int| 0 <= i < m.bpb.total_clus implies #[trigger] b.bit(i) == (
                    m.entry(i + 2) != 0) by {
                        assert(m.entry(i + 2) == o.entry(i + 2));
                    }
                }
                assert(s + new =~= s);
                lemma_chain_kept(o, m, first, s);
                assert forall|x: int| 2 <= x < 0x1_0000_0000 implies #[trigger] m.data(x) == o.data(
                    x,
                ) by {
                    m.lemma_data_same(o, x);
                }
                assert(m.grown(o, s, new));
            }
        }
        let mut i: u32 = 0;
        while i < additional
            invariant
                o == *old(self),
                i <= additional,
                self.inv(),
                self.same_but_alloc(o),
                new.len() == i,
                first == start,
                known == (o.tracked_ok() && o.has_chain(first)),
                known ==> o.tracked_ok() && o.is_file_chain(first, s),
                forall|t: Seq<u32>| #[trigger] o.is_file_chain(first, t) ==> t == s,
                known ==> self.grown(o, s, new) && tail == (s + new).last(),
            decreases additional - i,
        {
            let ghost m = *self;
            proof {
                if known {
                    let t = s + new;
                    assert(m.is_cluster(t[t.len() - 1] as int));
                }
            }
            let c: u32 = match self.append_cluster(tail) {
                Ok(c) => c,
                Err(e) => {
                    proof {
                        if known && e == VfsError::NoSpace {
                            lemma_short_grown(o, m, s, new);
                            if self.faults() == o.faults() {
                                lemma_grown_quiet(o, m, *self, s, new);
                                assert(self.grown(o, s, new));
                            }
                        }
                    }
                    return Err(e);
                },
            };
            proof {
                if known {
                    lemma_grown_step(o, m, *self, s, new, c);
                }
                new = new.push(c);
                assert((s + new).last() == c);
            }
            tail = c;
            i = i + 1;
        }
        proof {
            if known {
                assert(self.grown(o, s, new));
            }
        }
        Ok(())
    }

    /// From `o`, the chain `s` was cut to its first `keep` clusters and the others freed.
    pub open spec fn cut(self, o: Self, s: Seq<u32>, keep: int) -> bool {
        let rest = s.skip(keep);
        &&& self.sound()
        &&& self.same_data(o)
        &&& self.free_clus_count as int == (o.free_clus_count + rest.len()) % 0x1_0000_0000
        &&& self.next_alloc_hint == o.next_alloc_hint
        &&& self.bits_cleared(o, rest, rest.len() as int)
        &&& forall|x: int|
            o.has_entry(x) ==> #[trigger] self.entry(x) == (if x == s[keep - 1] {
                EOC_MARKER as int
            } else if allocator::among(rest, rest.len() as int, x) {
                0
            } else {
                o.entry(x)
            })
    }

    /// Cuts the chain from `start` on to its first `keep` clusters and frees the others.
    pub fn truncate_chain(&mut self, start: u32, keep: u32) -> (r: Result<(), VfsError>)
        requires
            old(self).inv(),
        ensures
            final(self).inv(),
            final(self).same_but_alloc(*old(self)),
            final(self).next_alloc_hint == old(self).next_alloc_hint,
            match r {
                Ok(_) => forall|s: Seq<u32>| #[trigger]
                    old(self).is_file_chain(start as int, s) && old(self).sound() ==> if keep == 0 {
                        final(self).freed(*old(self), s, s.len() as int)
                    } else if keep >= s.len() {
                        final(self).quiet(*old(self))
                    } else {
                        final(self).cut(*old(self), s, keep as int)
                    },
                Err(e) => e == VfsError::IOError && (old(self).has_chain(start as int)
                    ==> final(self).faults() > old(self).faults()),
            },
    {
        let ghost o = *self;
        let ghost first = start as int;
        if start == 0 || keep == 0 {
            let r = self.free_chain(start);
            proof {
                assert forall|s: Seq<u32>| #[trigger] o.is_file_chain(first, s) implies o.is_walk(
                    first,
                    s,
                ) by {
                    o.lemma_chain_is_walk(first, s);
                }
                assert forall|s: Seq<u32>| #[trigger] o.is_file_chain(first, s) implies start != 0 by {
                    assert(o.is_cluster(s[0] as int));
                }
            }
            return r;
        }
        let ghost known = o.sound() && exists|s: Seq<u32>| #[trigger] o.is_file_chain(first, s);
        let ghost s = choose|s: Seq<u32>| #[trigger] o.is_file_chain(first, s);
        proof {
            assert forall|t: Seq<u32>| #[trigger] o.is_file_chain(first, t) implies t == s by {
                o.lemma_chain_unique(first, s, t);
            }
        }
        let mut c: u32 = start;
        let mut i: u32 = 0;
        loop
            invariant
                o == *old(self),
                first == start,
                keep > 0,
                i < keep,
                self.quiet(o),
                known == (o.sound() && exists|s: Seq<u32>| #[trigger] o.is_file_chain(first, s)),
                known ==> o.is_file_chain(first, s),
                forall|t: Seq<u32>| #[trigger] o.is_file_chain(first, t) ==> t == s,
                known ==> i < s.len() && c == s[i as int],
            decreases keep - i,
        {
            let ghost m = *self;
            let read = self.read_fat_entry(c);
            proof {
                self.lemma_quiet_trans(m, o);
                if known {
                    assert(o.is_cluster(s[i as int] as int));
                    assert(m.entry(c as int) == o.entry(c as int));
                    if i < s.len() - 1 {
                        assert(o.entry(s[i as int] as int) == s[i + 1]);
                    }
                }
            }
            let next: u32 = match read {
                Ok(v) => v,
                Err(e) => return Err(e),
            };
            if next >= EOC_MARKER {
                return Ok(());
            }
            if i == keep - 1 {
                let ghost q = *self;
                match self.write_fat_entry(c, EOC_MARKER) {
                    Ok(_) => {},
                    Err(e) => return Err(e),
                }
                let ghost w = *self;
                let ghost rest = s.skip(keep as int);
                proof {
                    if known {
                        lemma_cut_rest(o, q, w, first, s, keep as int);
                    }
                }
                match self.free_chain(next) {
                    Ok(_) => {},
                    Err(e) => return Err(e),
                }
                proof {
                    if known {
                        assert(w.is_walk(next as int, rest));
                        assert(self.freed(w, rest, rest.len() as int));
                        o.lemma_chain_distinct(first, s);
                        lemma_cut(o, q, w, *self, s, keep as int);
                    }
                }
                return Ok(());
            }
            c = next;
            i = i + 1;
        }
    }
}

/// Once a chain is cut, what is behind the cut is a walk of its own.
proof fn lemma_cut_rest<D: BlockDevice>(
    o: Fat32SuperBlock<D>,
    q: Fat32SuperBlock<D>,
    w: Fat32SuperBlock<D>,
    first: int,
    s: Seq<u32>,
    keep: int,
)
    requires
        o.sound(),
        q.quiet(o),
        o.is_file_chain(first, s),
        0 < keep < s.len(),
        w.bpb == o.bpb,
        w.entry_set(q, s[keep - 1] as int, EOC_MARKER as int),
    ensures
        w.is_walk(s[keep] as int, s.skip(keep)),
        w.is_cluster(s[keep] as int),
{
    let rest = s.skip(keep);
    o.lemma_chain_distinct(first, s);
    assert forall|k: int| 0 <= k < rest.len() implies w.entry(#[trigger] rest[k] as int) == o.entry(
        s[keep + k] as int,
    ) by {
        assert(o.is_cluster(s[keep + k] as int));
        assert(s[keep + k] != s[keep - 1]);
        assert(q.has_entry(s[keep + k] as int));
        assert(q.entry(s[keep + k] as int) == o.entry(s[keep + k] as int));
    }
    assert forall|k: int| 0 <= k < rest.len() - 1 implies #[trigger] w.entry(rest[k] as int)
        == rest[k + 1] by {
        assert(w.entry(rest[k] as int) == o.entry(s[keep + k] as int));
        assert(o.entry(s[keep + k] as int) == s[keep + k + 1]);
    }
    assert(rest.last() == rest[rest.len() - 1]);
    assert(s.last() == s[s.len() - 1]);
    assert(w.entry(rest[rest.len() - 1] as int) == o.entry(s.last() as int));
    assert forall|k: int| 0 <= k < rest.len() implies w.is_cluster(#[trigger] rest[k] as int) by {
        assert(o.is_cluster(s[keep + k] as int));
    }
    assert(rest[0] == s[keep]);
    assert(w.is_cluster(rest[0] as int));
}

/// Marking the end and freeing the rest cuts the chain.
proof fn lemma_cut<D: BlockDevice>(
    o: Fat32SuperBlock<D>,
    q: Fat32SuperBlock<D>,
    w: Fat32SuperBlock<D>,
    f: Fat32SuperBlock<D>,
    s: Seq<u32>,
    keep: int,
)
    requires
        o.sound(),
        q.quiet(o),
        0 < keep < s.len(),
        s.no_duplicates(),
        w.same_rest(q),
        w.same_data(q),
        w.entry_set(q, s[keep - 1] as int, EOC_MARKER as int),
        f.bpb == o.bpb,
        f.freed(w, s.skip(keep), s.skip(keep).len() as int),
    ensures
        f.cut(o, s, keep),
{
    let rest = s.skip(keep);
    w.lemma_same_data_trans(q, o);
    f.lemma_same_data_trans(w, o);
    assert forall|x: int| o.has_entry(x) implies #[trigger] f.entry(x) == (if x == s[keep - 1] {
        EOC_MARKER as int
    } else if allocator::among(rest, rest.len() as int, x) {
        0
    } else {
        o.entry(x)
    }) by {
        assert(w.has_entry(x) && q.has_entry(x));
        assert(q.entry(x) == o.entry(x));
        if x == s[keep - 1] && allocator::among(rest, rest.len() as int, x) {
            let k = choose|k: int| 0 <= k < rest.len() && #[trigger] rest[k] == x;
            assert(s[keep + k] == s[keep - 1]);
        }
    }
}

/// Where the table is the same, so are the chains.
pub proof fn lemma_chain_kept<D: BlockDevice>(
    o: Fat32SuperBlock<D>,
    m: Fat32SuperBlock<D>,
    first: int,
    s: Seq<u32>,
)
    requires
        o.is_file_chain(first, s),
        m.bpb == o.bpb,
        forall|k: int|
            0 <= k < s.len() ==> m.entry(#[trigger] s[k] as int) == o.entry(s[k] as int),
    ensures
        m.is_file_chain(first, s),
{
    assert(s.last() == s[s.len() - 1]);
    assert forall|k: int| 0 <= k < s.len() - 1 implies #[trigger] m.entry(s[k] as int) == s[k + 1] by {
        assert(o.entry(s[k] as int) == s[k + 1]);
    }
}

/// The entries of a chain are not zero.
pub proof fn lemma_chain_taken<D: BlockDevice>(
    o: Fat32SuperBlock<D>,
    first: int,
    s: Seq<u32>,
    k: int,
)
    requires
        o.is_file_chain(first, s),
        0 <= k < s.len(),
    ensures
        o.entry(s[k] as int) != 0,
{
    if k < s.len() - 1 {
        assert(o.entry(s[k] as int) == s[k + 1]);
        assert(o.is_cluster(s[k + 1] as int));
    } else {
        assert(s.last() == s[k]);
    }
}

/// Appending one cluster more.
proof fn lemma_grown_step<D: BlockDevice>(
    o: Fat32SuperBlock<D>,
    m: Fat32SuperBlock<D>,
    l: Fat32SuperBlock<D>,
    s: Seq<u32>,
    new: Seq<u32>,
    c: u32,
)
    requires
        s.len() > 0,
        m.grown(o, s, new),
        l.bpb == o.bpb,
        m.entry((s + new).last() as int) != 0 ==> l.appended(
            m,
            (s + new).last() as int,
            c as int,
        ),
    ensures
        l.grown(o, s, new.push(c)),
{
    let t = s + new;
    let first = s[0] as int;
    let n = t.len() as int;
    lemma_chain_taken(m, first, t, n - 1);
    m.lemma_chain_distinct(first, t);
    assert(t.last() == t[n - 1]);
    let next = new.push(c);
    let u = s + next;
    assert(u =~= t.push(c));
    assert forall|k: int| 0 <= k < n implies t[k] != c by {
        lemma_chain_taken(m, first, t, k);
    }
    assert forall|k: int| 0 <= k < u.len() implies l.is_cluster(#[trigger] u[k] as int)
        && l.has_entry(u[k] as int) && u[k] < EOC_MARKER by {
        if k < n {
            assert(u[k] == t[k]);
            assert(m.is_cluster(t[k] as int));
        }
    }
    assert forall|k: int| 0 <= k < u.len() - 1 implies #[trigger] l.entry(u[k] as int) == u[k + 1] by {
        assert(u[k] == t[k]);
        assert(m.has_entry(t[k] as int));
        if k < n - 1 {
            assert(m.entry(t[k] as int) == t[k + 1]);
            assert(t[k] != t[n - 1]);
        }
    }
    assert(u.last() == c);
    assert(l.is_file_chain(first, u));
    assert forall|x: int| allocator::among(next, next.len() as int, x) == (allocator::among(
        new,
        new.len() as int,
        x,
    ) || x == c) by {
        lemma_among_push(new, c, x);
    }
    assert forall|k: int| 0 <= k < next.len() implies o.entry(#[trigger] next[k] as int) == 0 by {
        if k == new.len() {
            lemma_among_push(new, c, c as int);
            if c == s.last() {
                assert(t[s.len() - 1] == c);
            } else if allocator::among(new, new.len() as int, c as int) {
                let j = choose|j: int| 0 <= j < new.len() && #[trigger] new[j] == c as int;
                assert(t[s.len() + j] == c);
            } else {
                assert(m.has_entry(c as int));
                assert(m.entry(c as int) == o.entry(c as int));
            }
        }
    }
    assert forall|x: int|
        o.has_entry(x) && x != s.last() && !allocator::among(
            next,
            next.len() as int,
            x,
        ) implies #[trigger] l.entry(x) == o.entry(x) by {
        lemma_among_push(new, c, x);
        if x == t.last() {
            if new.len() > 0 {
                assert(new[new.len() - 1] == x);
            }
        }
        assert(m.has_entry(x));
        assert(m.entry(x) == o.entry(x));
    }
    assert forall|k: int| 0 <= k < next.len() implies l.data(#[trigger] next[k] as int) == zeros(
        o.bpb.byts_per_clus as int,
    ) by {
        if k < new.len() {
            assert(next[k] == new[k]);
            assert(t[s.len() + k] == new[k]);
            assert(m.is_cluster(t[s.len() + k] as int));
            assert(l.data(new[k] as int) == m.data(new[k] as int));
        }
    }
    assert forall|x: int|
        2 <= x < 0x1_0000_0000 && !allocator::among(
            next,
            next.len() as int,
            x,
        ) implies #[trigger] l.data(x) == o.data(x) by {
        lemma_among_push(new, c, x);
        assert(m.data(x) == o.data(x));
    }
}

/// One element more.
pub proof fn lemma_among_push(v: Seq<u32>, c: u32, x: int)
    ensures
        allocator::among(v.push(c), v.len() as int + 1, x) == (allocator::among(
            v,
            v.len() as int,
            x,
        ) || x == c),
{
    let w = v.push(c);
    chain::lemma_among_step(w, v.len() as int, x);
    if allocator::among(v, v.len() as int, x) {
        let k = choose|k: int| 0 <= k < v.len() && #[trigger] v[k] == x;
        assert(w[k] == x);
    }
    if allocator::among(w, v.len() as int, x) {
        let k = choose|k: int| 0 <= k < v.len() && #[trigger] w[k] == x;
        assert(v[k] == x);
    }
}

/// A quiet step leaves what is in use alone.
pub proof fn lemma_quiet_in_use<D: BlockDevice>(
    o: Fat32SuperBlock<D>,
    m: Fat32SuperBlock<D>,
    next: Fat32SuperBlock<D>,
)
    requires
        m.in_use_same(o),
        next.quiet(m),
    ensures
        next.in_use_same(o),
{
    assert forall|x: int| o.has_entry(x) && o.entry(x) != 0 implies #[trigger] next.entry(x)
        == o.entry(x) by {
        assert(m.has_entry(x));
        assert(m.entry(x) == o.entry(x));
    }
    assert forall|x: int| 2 <= x && o.has_entry(x) && o.entry(x) != 0 implies #[trigger] next.data(x)
        == o.data(x) by {
        next.lemma_data_same(m, x);
        assert(m.data(x) == o.data(x));
    }
}

/// Allocating, clearing and linking a cluster appends it.
proof fn lemma_appended<D: BlockDevice>(
    o: Fat32SuperBlock<D>,
    a: Fat32SuperBlock<D>,
    z: Fat32SuperBlock<D>,
    l: Fat32SuperBlock<D>,
    tail: u32,
    new: u32,
)
    requires
        o.tracked_ok(),
        o.is_cluster(tail as int),
        o.entry(tail as int) != 0,
        a.allocated(o, seq![new]),
        o.is_choice(1, seq![new]),
        z.cluster_written(a, new as int, zeros(o.bpb.byts_per_clus as int), true),
        l.inv(),
        l.same_rest(z),
        l.sound(),
        l.same_data(z),
        l.entry_set(z, tail as int, new as int % 0x1000_0000),
    ensures
        l.appended(o, tail as int, new as int),
{
    let v = seq![new];
    a.lemma_allocated(o, v);
    assert(v[0] == new);
    assert(o.is_cluster(v[0] as int));
    assert forall|x: int| o.has_entry(x) implies #[trigger] l.entry(x) == (if x == tail {
        new as int
    } else if x == new {
        EOC_MARKER as int
    } else {
        o.entry(x)
    }) by {
        assert(a.has_entry(x) && z.has_entry(x));
        assert(z.entry(x) == a.entry(x));
        assert(a.entry(x) == (if allocator::among(v, 1, x) {
            EOC_MARKER as int
        } else {
            o.entry(x)
        }));
        if x == new {
            assert(v[0] == x);
            assert(allocator::among(v, 1, x));
        }
    }
    if l.alloc_bitmap is Some {
        let b = l.alloc_bitmap->0;
        assert forall|i: int| 0 <= i < l.bpb.total_clus implies #[trigger] b.bit(i) == (l.entry(
            i + 2,
        ) != 0) by {
            assert(o.has_entry(i + 2));
            let ab = a.alloc_bitmap->0;
            assert(ab.bit(i) == (a.entry(i + 2) != 0));
            assert(z.entry(i + 2) == a.entry(i + 2));
        }
    }
    l.lemma_data_same(z, new as int);
    assert forall|x: int| 2 <= x < 0x1_0000_0000 && x != new implies #[trigger] l.data(x) == o.data(
        x,
    ) by {
        l.lemma_data_same(z, x);
        a.lemma_data_same(o, x);
        assert(z.data(x) == a.data(x));
    }
}

/// Allocating one cluster and writing to it leaves what is in use alone.
proof fn lemma_new_cluster_only<D: BlockDevice>(
    o: Fat32SuperBlock<D>,
    a: Fat32SuperBlock<D>,
    z: Fat32SuperBlock<D>,
    new: u32,
)
    requires
        o.tracked_ok(),
        o.bpb.total_clus > 0,
        a.allocated(o, seq![new]),
        o.is_choice(1, seq![new]),
        z.cluster_written(a, new as int, zeros(o.bpb.byts_per_clus as int), false),
    ensures
        z.in_use_same(o),
{
    let v = seq![new];
    a.lemma_allocated(o, v);
    assert(v[0] == new);
    assert(o.is_cluster(v[0] as int));
    assert forall|x: int| o.has_entry(x) && o.entry(x) != 0 implies #[trigger] z.entry(x) == o.entry(
        x,
    ) by {
        assert(a.has_entry(x));
        assert(z.entry(x) == a.entry(x));
        if allocator::among(v, 1, x) {
            let k = choose|k: int| 0 <= k < 1 && #[trigger] v[k] == x;
            assert(o.entry(v[k] as int) == 0);
        }
    }
    assert forall|x: int| 2 <= x && o.has_entry(x) && o.entry(x) != 0 implies #[trigger] z.data(x)
        == o.data(x) by {
        a.lemma_data_same(o, x);
        assert(x != new);
        assert(z.data(x) == a.data(x));
    }
}

/// A chain that has grown stays so while the volume stays the same.
pub proof fn lemma_grown_quiet<D: BlockDevice>(
    o: Fat32SuperBlock<D>,
    m: Fat32SuperBlock<D>,
    f: Fat32SuperBlock<D>,
    s: Seq<u32>,
    new: Seq<u32>,
)
    requires
        o.bpb.wf(),
        m.grown(o, s, new),
        f.quiet(m),
    ensures
        f.grown(o, s, new),
{
    crate::fat32::dir_write::lemma_tracked_quiet(m, f);
    crate::fat32::file_write::lemma_chain_same(m, f, s[0] as int, s + new);
    assert forall|x: int|
        o.has_entry(x) && x != s.last() && !allocator::among(
            new,
            new.len() as int,
            x,
        ) implies #[trigger] f.entry(x) == o.entry(x) by {
        assert(m.has_entry(x));
        assert(m.entry(x) == o.entry(x));
    }
    assert forall|k: int| 0 <= k < new.len() implies f.data(#[trigger] new[k] as int) == zeros(
        o.bpb.byts_per_clus as int,
    ) by {
        f.lemma_data_same(m, new[k] as int);
    }
    assert forall|x: int|
        2 <= x < 0x1_0000_0000 && !allocator::among(
            new,
            new.len() as int,
            x,
        ) implies #[trigger] f.data(x) == o.data(x) by {
        f.lemma_data_same(m, x);
        assert(m.data(x) == o.data(x));
    }
}

/// Where a chain that has grown by `new` finds no free cluster, there were no more than
/// those of `new`.
proof fn lemma_short_grown<D: BlockDevice>(
    o: Fat32SuperBlock<D>,
    m: Fat32SuperBlock<D>,
    s: Seq<u32>,
    new: Seq<u32>,
)
    requires
        o.tracked_ok(),
        s.len() > 0,
        o.is_file_chain(s[0] as int, s),
        m.grown(o, s, new),
        m.short_of(1),
    ensures
        o.short_of(new.len() as int + 1),
{
    let total = o.bpb.total_clus as int;
    if total > 0 {
        let free = o.free_list();
        let start = o.search_start();
        allocator::lemma_free_prefix(o.taken(), total, start, total);
        free.unique_seq_to_set();
        let v = new.map_values(|c: u32| c - 2);
        assert forall|x: int| free.to_set().contains(x) implies v.to_set().contains(x) by {
            let j = choose|j: int| 0 <= j < free.len() && free[j] == x;
            assert(!(o.taken())(x) && 0 <= x < total);
            assert(o.entry(x + 2) == 0) by {
                if o.alloc_bitmap is Some {
                    assert((o.alloc_bitmap->0).bit(x) == (o.entry(x + 2) != 0));
                }
            }
            assert(o.is_cluster(s[s.len() - 1] as int));
            assert(x + 2 != s.last());
            if !allocator::among(new, new.len() as int, x + 2) {
                assert(o.has_entry(x + 2));
                assert(m.entry(x + 2) == 0);
                assert(!(m.taken())(x)) by {
                    if m.alloc_bitmap is Some {
                        assert((m.alloc_bitmap->0).bit(x) == (m.entry(x + 2) != 0));
                    }
                }
                assert(seq![x].no_duplicates());
                allocator::lemma_free_count(m.taken(), total, m.search_start(), seq![x]);
            }
            let k = choose|k: int| 0 <= k < new.len() && #[trigger] new[k] == x + 2;
            assert(v[k] == x);
        }
        vstd::seq_lib::seq_to_set_is_finite(v);
        vstd::set_lib::lemma_len_subset(free.to_set(), v.to_set());
        v.lemma_cardinality_of_set();
    }
}

} // verus!
