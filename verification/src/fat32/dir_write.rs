//! Adding entries to a directory.

use vstd::prelude::*;

use crate::blockdriver::traits::BlockDevice;
use crate::bytes;
use crate::bytes::copy_at;
use crate::fat32::allocator;
use crate::fat32::dirent;
use crate::fat32::dirent::{DIR_DELETED, DIR_END};
use crate::fat32::grow;
use crate::fat32::superblock::{Fat32SuperBlock, EOC_MARKER};
use crate::vfs::VfsError;

verus! {

/// Entry `i` holds nothing.
pub open spec fn is_vacant(b: Seq<u8>, i: int) -> bool {
    b[32 * i] == DIR_DELETED || b[32 * i] == DIR_END
}

/// The number of vacant entries from `i` on that follow one another, up to `n`.
pub open spec fn vacant_run(b: Seq<u8>, i: int, n: int) -> int
    decreases n - i,
{
    if i >= n || !is_vacant(b, i) {
        0
    } else {
        1 + vacant_run(b, i + 1, n)
    }
}

/// The number of entries that fit from `i` on in a cluster of `n`: behind the end of
/// the directory all are free.
pub open spec fn room_at(b: Seq<u8>, i: int, n: int) -> int {
    if b[32 * i] == DIR_DELETED {
        vacant_run(b, i, n)
    } else if b[32 * i] == DIR_END {
        n - i
    } else {
        0
    }
}

/// The first entry from `i` on at which `need` entries fit.
pub open spec fn find_room(b: Seq<u8>, i: int, need: int) -> Option<int>
    decreases b.len() - 32 * i,
{
    if i < 0 || 32 * i + 32 > b.len() {
        None
    } else if is_vacant(b, i) && room_at(b, i, b.len() as int / 32) >= need {
        Some(i)
    } else {
        find_room(b, i + 1, need)
    }
}

/// The bytes of entries, one after the other.
pub open spec fn flat(entries: Seq<Seq<u8>>) -> Seq<u8> {
    Seq::new(32 * entries.len(), |p: int| entries[p / 32][p % 32])
}

fn flatten(entries: &Vec<[u8; 32]>) -> (r: Vec<u8>)
    requires
        entries@.len() <= 0x1_0000,
    ensures
        r@ == flat(dirent::entry_views(entries@)),
{
    let mut out: Vec<u8> = Vec::new();
    let mut i: usize = 0;
    while i < entries.len()
        invariant
            i <= entries@.len(),
            entries@.len() <= 0x1_0000,
            out@.len() == 32 * i,
            forall|p: int| 0 <= p < 32 * i ==> #[trigger] out@[p] == entries@[p / 32]@[p % 32],
        decreases entries@.len() - i,
    {
        let e: [u8; 32] = entries[i];
        let mut j: usize = 0;
        while j < 32
            invariant
                j <= 32,
                i < entries@.len(),
                e == entries@[i as int],
                out@.len() == 32 * i + j,
                forall|p: int|
                    0 <= p < 32 * i + j ==> #[trigger] out@[p] == entries@[p / 32]@[p % 32],
            decreases 32 - j,
        {
            out.push(e[j]);
            j = j + 1;
        }
        i = i + 1;
    }
    assert(out@ =~= flat(dirent::entry_views(entries@)));
    out
}

fn count_vacant(buf: &Vec<u8>, i: usize, n: usize) -> (r: usize)
    requires
        i <= n,
        32 * n <= buf@.len(),
    ensures
        r == vacant_run(buf@, i as int, n as int),
        i + r <= n,
{
    let mut j: usize = i;
    assert(buf@.len() == buf.len());
    while j < n && (buf[j * 32] == DIR_DELETED || buf[j * 32] == DIR_END)
        invariant
            i <= j <= n,
            32 * n <= buf.len(),
            vacant_run(buf@, i as int, n as int) == (j - i) + vacant_run(
                buf@,
                j as int,
                n as int,
            ),
        decreases n - j,
    {
        j = j + 1;
    }
    j - i
}

fn search_room(buf: &Vec<u8>, need: usize) -> (r: Option<usize>)
    requires
        buf@.len() <= 0x1_0000,
        need >= 1,
    ensures
        match find_room(buf@, 0, need as int) {
            Some(i) => r == Some(i as usize) && 0 <= i && 32 * (i + need) <= buf@.len(),
            None => r is None,
        },
{
    let n: usize = buf.len() / 32;
    let mut i: usize = 0;
    while i < n
        invariant
            i <= n,
            n == buf@.len() / 32,
            buf@.len() <= 0x1_0000,
            find_room(buf@, 0, need as int) == find_room(buf@, i as int, need as int),
        decreases n - i,
    {
        let first: u8 = buf[i * 32];
        if first == DIR_DELETED {
            let space: usize = count_vacant(buf, i, n);
            if space >= need {
                return Some(i);
            }
        } else if first == DIR_END {
            if n - i >= need {
                return Some(i);
            }
        }
        i = i + 1;
    }
    None
}

impl<D: BlockDevice> Fat32SuperBlock<D> {
    /// The cluster of the directory `s`, from cluster `k` on, and the entry in it, at
    /// which `need` entries fit.
    pub open spec fn place(self, s: Seq<u32>, k: int, need: int) -> Option<(int, int)>
        decreases s.len() - k,
    {
        if k < 0 || k >= s.len() {
            None
        } else {
            match find_room(self.data(s[k] as int), 0, need) {
                Some(i) => Some((k, i)),
                None => self.place(s, k + 1, need),
            }
        }
    }

    /// From `o`, the directory `s` has got the new cluster `c` with `entries` in it.
    pub open spec fn dir_grown(self, o: Self, s: Seq<u32>, c: u32, entries: Seq<Seq<u8>>) -> bool {
        &&& self.tracked_ok()
        &&& self.same_but_alloc(o)
        &&& self.free_clus_count as int == (o.free_clus_count - 1) % 0x1_0000_0000
        &&& self.next_alloc_hint == c + 1
        &&& self.is_file_chain(s[0] as int, s.push(c))
        &&& o.entry(c as int) == 0
        &&& forall|x: int|
            o.has_entry(x) && x != s.last() && x != c ==> #[trigger] self.entry(x) == o.entry(x)
        &&& self.data(c as int) == bytes::splice(
            grow::zeros(o.bpb.byts_per_clus as int),
            0,
            flat(entries),
        )
        &&& forall|x: int| 2 <= x < 0x1_0000_0000 && x != c ==> #[trigger] self.data(x) == o.data(x)
    }

    /// From `o`, `entries` were added to the directory `s`: at the first place where
    /// they fit, or else in a new cluster.
    pub open spec fn entries_added(self, o: Self, s: Seq<u32>, entries: Seq<Seq<u8>>) -> bool {
        match o.place(s, 0, entries.len() as int) {
            Some((k, i)) => self.cluster_set(
                o,
                s[k] as int,
                bytes::splice(o.data(s[k] as int), 32 * i, flat(entries)),
            ),
            None => o.tracked_ok() ==> exists|c: u32| #[trigger] self.dir_grown(o, s, c, entries),
        }
    }

    /// Adds entries to the directory whose first cluster is `dir_clus`.
    pub fn write_dir_entries(&mut self, dir_clus: u32, entries: &Vec<[u8; 32]>) -> (r: Result<
        (),
        VfsError,
    >)
        requires
            old(self).inv(),
            32 * entries@.len() <= old(self).bpb.byts_per_clus,
        ensures
            final(self).inv(),
            final(self).same_but_alloc(*old(self)),
            entries@.len() == 0 ==> r is Ok && *final(self) == *old(self),
            entries@.len() > 0 && dir_clus < 2 ==> r == Err::<(), VfsError>(VfsError::InvalidInput)
                && *final(self) == *old(self),
            r matches Err(e) ==> (e == VfsError::IOError && (old(self).has_chain(dir_clus as int)
                ==> final(self).faults() > old(self).faults())) || (e == VfsError::NoSpace && (
            final(self).faults() == old(self).faults() ==> final(self).quiet(*old(self))) && (
            old(self).sound() ==> old(self).short_of(1) && forall|s: Seq<u32>| #[trigger]
                old(self).is_file_chain(dir_clus as int, s) ==> old(self).place(
                    s,
                    0,
                    entries@.len() as int,
                ) is None)) || (e == VfsError::InvalidInput && dir_clus < 2),
            entries@.len() > 0 && r is Ok ==> forall|s: Seq<u32>| #[trigger]
                old(self).is_file_chain(dir_clus as int, s) && old(self).sound()
                    ==> final(self).entries_added(*old(self), s, dirent::entry_views(entries@)),
            forall|s: Seq<u32>| #[trigger]
                old(self).is_file_chain(dir_clus as int, s) && old(self).tracked_ok()
                    ==> final(self).in_use_but(*old(self), s),
    {
        let ghost o = *self;
        proof {
            assert forall|s: Seq<u32>| #[trigger]
                o.is_file_chain(dir_clus as int, s) && o.tracked_ok() implies o.in_use_but(o, s) by {}
        }
        if entries.len() == 0 {
            return Ok(());
        }
        if dir_clus < 2 {
            return Err(VfsError::InvalidInput);
        }
        let ghost first = dir_clus as int;
        let ghost es = dirent::entry_views(entries@);
        let ghost known = o.sound() && exists|s: Seq<u32>| #[trigger] o.is_file_chain(first, s);
        let ghost s = choose|s: Seq<u32>| #[trigger] o.is_file_chain(first, s);
        proof {
            assert forall|t: Seq<u32>| #[trigger] o.is_file_chain(first, t) implies t == s by {
                o.lemma_chain_unique(first, s, t);
            }
        }
        let total: usize = entries.len();
        let bytes_flat: Vec<u8> = flatten(entries);
        let mut cluster: u32 = dir_clus;
        let mut iters: u32 = 0;
        loop
            invariant
                o == *old(self),
                first == dir_clus,
                dir_clus >= 2,
                self.quiet(o),
                o.bpb.total_clus + 2 <= u32::MAX,
                iters <= o.bpb.total_clus + 2,
                total == entries@.len(),
                total >= 1,
                32 * total <= o.bpb.byts_per_clus,
                es == dirent::entry_views(entries@),
                bytes_flat@ == flat(es),
                known == (o.sound() && exists|s: Seq<u32>| #[trigger] o.is_file_chain(first, s)),
                known ==> o.is_file_chain(first, s),
                forall|t: Seq<u32>| #[trigger] o.is_file_chain(first, t) ==> t == s,
                known ==> iters < s.len() && cluster == s[iters as int],
                known ==> o.place(s, 0, total as int) == o.place(s, iters as int, total as int),
            decreases o.bpb.total_clus + 3 - iters,
        {
            let ghost m = *self;
            let read_in = self.read_cluster(cluster);
            let ghost q = *self;
            let ghost k = iters as int;
            proof {
                self.lemma_quiet_trans(m, o);
                if o.sound() {
                    self.lemma_in_use_quiet(o, s);
                }
            }
            let mut buf: Vec<u8> = match read_in {
                Ok(v) => v,
                Err(e) => return Err(e),
            };
            proof {
                if known {
                    m.lemma_data_same(o, cluster as int);
                }
            }
            match search_room(&buf, total) {
                Some(i) => {
                    let ghost was = buf@;
                    copy_at(buf.as_mut_slice(), i * 32, bytes_flat.as_slice());
                    let r = self.write_cluster(cluster, buf.as_slice());
                    proof {
                        if known {
                            assert(o.is_cluster(s[k] as int));
                            self.lemma_cluster_set(q, o, cluster as int, buf@, r is Ok);
                            assert(allocator::among(s, s.len() as int, cluster as int));
                            assert(self.in_use_but(o, s));
                        }
                    }
                    return r;
                },
                None => {},
            }
            if iters >= self.bpb.total_clus + 2 {
                proof {
                    if known {
                        o.lemma_file_chain_len(first, s);
                    }
                }
                return Err(VfsError::IOError);
            }
            let ghost m2 = *self;
            let read = self.read_fat_entry(cluster);
            let ghost q2 = *self;
            proof {
                self.lemma_quiet_trans(m2, o);
                if o.sound() {
                    self.lemma_in_use_quiet(o, s);
                }
                if known {
                    assert(o.is_cluster(s[k] as int));
                    assert(m2.entry(cluster as int) == o.entry(cluster as int));
                    if k < s.len() - 1 {
                        assert(o.entry(s[k] as int) == s[k + 1]);
                    }
                }
            }
            let next: u32 = match read {
                Ok(v) => v,
                Err(e) => return Err(e),
            };
            if next >= EOC_MARKER {
                proof {
                    if known {
                        assert(k == s.len() - 1);
                        assert(o.place(s, k + 1, total as int) is None);
                        assert(o.place(s, 0, total as int) is None);
                    }
                }
                let new_clus: u32 = match self.append_cluster(cluster) {
                    Ok(c) => c,
                    Err(e) => {
                        proof {
                            if known && o.tracked_ok() {
                                lemma_tracked_quiet(o, q2);
                                assert(self.in_use_but(q2, s));
                                self.lemma_in_use_from(q2, o, s);
                            }
                            if e == VfsError::NoSpace {
                                if o.sound() {
                                    q2.lemma_short_same(o, 1);
                                }
                                if self.faults() == o.faults() {
                                    self.lemma_quiet_trans(q2, o);
                                }
                            }
                        }
                        return Err(e);
                    },
                };
                let ghost a = *self;
                let mut new_buf: Vec<u8> = vec![0u8; self.bpb.byts_per_clus as usize];
                assert(new_buf@ =~= grow::zeros(o.bpb.byts_per_clus as int));
                copy_at(new_buf.as_mut_slice(), 0, bytes_flat.as_slice());
                let r = self.write_cluster(new_clus, new_buf.as_slice());
                proof {
                    if known && o.tracked_ok() {
                        assert(s.last() == s[k]);
                        lemma_tracked_quiet(o, q2);
                        assert(q2.entry(cluster as int) == o.entry(cluster as int));
                        assert(allocator::among(s, s.len() as int, cluster as int));
                        assert(a.appended(q2, cluster as int, new_clus as int));
                        assert(q2.entry(new_clus as int) == 0);
                        assert forall|x: int|
                            q2.has_entry(x) && q2.entry(x) != 0 && !allocator::among(
                                s,
                                s.len() as int,
                                x,
                            ) implies #[trigger] self.entry(x) == q2.entry(x) by {
                            assert(a.has_entry(x));
                            assert(a.entry(x) == q2.entry(x));
                        }
                        assert forall|x: int|
                            2 <= x && q2.has_entry(x) && q2.entry(x) != 0 && !allocator::among(
                                s,
                                s.len() as int,
                                x,
                            ) implies #[trigger] self.data(x) == q2.data(x) by {
                            assert(a.data(x) == q2.data(x));
                        }
                        assert(self.in_use_but(q2, s));
                        self.lemma_in_use_from(q2, o, s);
                    }
                    if known && o.tracked_ok() && r is Ok {
                        lemma_dir_grown(o, q2, a, *self, s, new_clus, es, new_buf@);
                        assert(self.dir_grown(o, s, new_clus, es));
                    }
                }
                return r;
            }
            cluster = next;
            iters = iters + 1;
        }
    }
}

/// A quiet step keeps the bitmap in step.
pub proof fn lemma_tracked_quiet<D: BlockDevice>(o: Fat32SuperBlock<D>, q: Fat32SuperBlock<D>)
    requires
        o.tracked_ok(),
        q.quiet(o),
    ensures
        q.tracked_ok(),
{
    if q.alloc_bitmap is Some {
        let b = q.alloc_bitmap->0;
        assert forall|i: int| 0 <= i < q.bpb.total_clus implies #[trigger] b.bit(i) == (q.entry(
            i + 2,
        ) != 0) by {
            assert(o.has_entry(i + 2));
            assert(q.entry(i + 2) == o.entry(i + 2));
        }
    }
}

/// Appending a cluster and filling it grows the directory.
proof fn lemma_dir_grown<D: BlockDevice>(
    o: Fat32SuperBlock<D>,
    q: Fat32SuperBlock<D>,
    a: Fat32SuperBlock<D>,
    w: Fat32SuperBlock<D>,
    s: Seq<u32>,
    c: u32,
    es: Seq<Seq<u8>>,
    content: Seq<u8>,
)
    requires
        o.tracked_ok(),
        s.len() > 0,
        o.is_file_chain(s[0] as int, s),
        q.quiet(o),
        q.tracked_ok(),
        a.same_but_alloc(o),
        a.appended(q, s.last() as int, c as int),
        w.cluster_written(a, c as int, content, true),
        content == bytes::splice(grow::zeros(o.bpb.byts_per_clus as int), 0, flat(es)),
    ensures
        w.dir_grown(o, s, c, es),
{
    let first = s[0] as int;
    let n = s.len() as int;
    assert(s.last() == s[n - 1]);
    o.lemma_chain_distinct(first, s);
    let t = s.push(c);
    assert(o.has_entry(c as int));
    assert(q.entry(c as int) == o.entry(c as int));
    assert forall|k: int| 0 <= k < n implies s[k] != c by {
        grow::lemma_chain_taken(o, first, s, k);
    }
    assert forall|x: int| o.has_entry(x) implies #[trigger] w.entry(x) == (if x == s.last() {
        c as int
    } else if x == c {
        EOC_MARKER as int
    } else {
        o.entry(x)
    }) by {
        assert(q.has_entry(x) && a.has_entry(x));
        assert(w.entry(x) == a.entry(x));
        assert(q.entry(x) == o.entry(x));
    }
    assert forall|k: int| 0 <= k < t.len() implies w.is_cluster(#[trigger] t[k] as int)
        && w.has_entry(t[k] as int) && t[k] < EOC_MARKER by {
        if k < n {
            assert(t[k] == s[k]);
            assert(o.is_cluster(s[k] as int));
        }
    }
    assert forall|k: int| 0 <= k < t.len() - 1 implies #[trigger] w.entry(t[k] as int) == t[k + 1] by {
        assert(t[k] == s[k]);
        assert(o.has_entry(s[k] as int));
        if k < n - 1 {
            assert(o.entry(s[k] as int) == s[k + 1]);
            assert(s[k] != s[n - 1]);
        }
    }
    assert(t.last() == c);
    if w.alloc_bitmap is Some {
        let b = w.alloc_bitmap->0;
        assert forall|i: int| 0 <= i < w.bpb.total_clus implies #[trigger] b.bit(i) == (w.entry(
            i + 2,
        ) != 0) by {
            assert(a.has_entry(i + 2));
            assert(w.entry(i + 2) == a.entry(i + 2));
            let ab = a.alloc_bitmap->0;
            assert(ab.bit(i) == (a.entry(i + 2) != 0));
        }
    }
    assert forall|x: int| 2 <= x < 0x1_0000_0000 && x != c implies #[trigger] w.data(x) == o.data(
        x,
    ) by {
        q.lemma_data_same(o, x);
        assert(a.data(x) == q.data(x));
        assert(w.data(x) == a.data(x));
    }
}

} // verus!
