//! What a directory records of a file, and what changing the record leaves alone.

use vstd::prelude::*;

use crate::blockdriver::traits::BlockDevice;
use crate::bytes;
use crate::fat32::dir;
use crate::fat32::dirent;
use crate::fat32::dirent::ATTR_LONG_NAME;
use crate::fat32::superblock::Fat32SuperBlock;

verus! {

/// Cluster `c` differs from `b` at most in what entry `i`, which names a file, says besides
/// the short name and the attributes.
pub open spec fn same_names(b: Seq<u8>, c: Seq<u8>, i: int) -> bool {
    &&& b.len() == c.len()
    &&& 0 <= i
    &&& 32 * i + 32 <= b.len()
    &&& dir::is_file_entry(dir::entry_at(b, i))
    &&& dir::entry_at(b, i).take(12) == dir::entry_at(c, i).take(12)
    &&& forall|j: int|
        0 <= j && 32 * j + 32 <= b.len() && j != i ==> #[trigger] dir::entry_at(b, j)
            == dir::entry_at(c, j)
}

proof fn lemma_same_head(b: Seq<u8>, c: Seq<u8>, i: int, j: int)
    requires
        same_names(b, c, i),
        0 <= j,
        32 * j + 32 <= b.len(),
    ensures
        dir::entry_at(b, j)[0] == dir::entry_at(c, j)[0],
        dir::entry_at(b, j)[11] == dir::entry_at(c, j)[11],
        dir::entry_at(b, j).take(11) == dir::entry_at(c, j).take(11),
{
    if j == i {
        let (x, y) = (dir::entry_at(b, i), dir::entry_at(c, i));
        assert(x.take(12)[0] == x[0] && y.take(12)[0] == y[0]);
        assert(x.take(12)[11] == x[11] && y.take(12)[11] == y[11]);
        assert(x.take(12).take(11) =~= x.take(11));
        assert(y.take(12).take(11) =~= y.take(11));
    } else {
        assert(dir::entry_at(b, j) == dir::entry_at(c, j));
    }
}

/// The entries from where a long name starts on are all of long names.
proof fn lemma_lfn_start(b: Seq<u8>, j: int, k: int)
    requires
        0 <= j,
        dir::lfn_start(b, j) <= k < j,
    ensures
        dir::entry_at(b, k)[11] == ATTR_LONG_NAME,
        0 <= dir::lfn_start(b, j),
    decreases j,
{
    if j > 0 && dir::entry_at(b, j - 1)[11] == ATTR_LONG_NAME {
        if k < j - 1 {
            lemma_lfn_start(b, j - 1, k);
        } else {
            lemma_lfn_bound(b, j);
        }
    }
}

proof fn lemma_lfn_bound(b: Seq<u8>, j: int)
    requires
        0 <= j,
    ensures
        0 <= dir::lfn_start(b, j) <= j,
    decreases j,
{
    if j > 0 && dir::entry_at(b, j - 1)[11] == ATTR_LONG_NAME {
        lemma_lfn_bound(b, j - 1);
    }
}

proof fn lemma_lfn_start_same(b: Seq<u8>, c: Seq<u8>, i: int, j: int)
    requires
        same_names(b, c, i),
        0 <= j,
        32 * j <= b.len(),
    ensures
        dir::lfn_start(b, j) == dir::lfn_start(c, j),
    decreases j,
{
    if j > 0 {
        lemma_same_head(b, c, i, j - 1);
        lemma_lfn_start_same(b, c, i, j - 1);
    }
}

proof fn lemma_local_name_same(b: Seq<u8>, c: Seq<u8>, i: int, j: int)
    requires
        same_names(b, c, i),
        0 <= j,
        32 * j + 32 <= b.len(),
    ensures
        dir::local_name(b, j) == dir::local_name(c, j),
{
    let start = dir::lfn_start(b, j);
    lemma_lfn_start_same(b, c, i, j);
    lemma_lfn_bound(b, j);
    lemma_same_head(b, c, i, j);
    if start < j {
        let (x, y) = (dir::entries_between(b, start, j), dir::entries_between(c, start, j));
        assert forall|k: int| 0 <= k < j - start implies #[trigger] x[k] == y[k] by {
            lemma_lfn_start(b, j, start + k);
            assert(start + k != i);
            assert(dir::entry_at(b, start + k) == dir::entry_at(c, start + k));
        }
        assert(x =~= y);
    }
}

/// A search finds the same.
pub proof fn lemma_scan_same(b: Seq<u8>, c: Seq<u8>, i: int, j: int, name: Seq<char>)
    requires
        same_names(b, c, i),
        0 <= j,
    ensures
        dir::scan(b, j, name) == dir::scan(c, j, name),
    decreases b.len() - 32 * j,
{
    if 32 * j + 32 <= b.len() {
        lemma_same_head(b, c, i, j);
        lemma_local_name_same(b, c, i, j);
        lemma_scan_same(b, c, i, j + 1, name);
    }
}

/// What a search finds names a file.
pub proof fn lemma_scan_found(b: Seq<u8>, j: int, name: Seq<char>)
    requires
        0 <= j,
        dir::scan(b, j, name) is Found,
    ensures
        ({
            let i = dir::scan(b, j, name)->Found_0;
            &&& j <= i
            &&& 32 * i + 32 <= b.len()
            &&& dir::is_file_entry(dir::entry_at(b, i))
        }),
    decreases b.len() - 32 * j,
{
    if 32 * j + 32 <= b.len() && !(dir::is_file_entry(dir::entry_at(b, j)) && crate::text::lower(
        dir::local_name(b, j),
    ) == crate::text::lower(name)) {
        lemma_scan_found(b, j + 1, name);
    }
}

impl<D: BlockDevice> Fat32SuperBlock<D> {
    /// Where the clusters of a directory hold the same, a search finds the same.
    pub proof fn lemma_locate_same(self, o: Self, s: Seq<u32>, k: int, name: Seq<char>)
        requires
            forall|j: int|
                0 <= j < s.len() ==> self.data(#[trigger] s[j] as int) == o.data(s[j] as int),
        ensures
            self.locate(s, k, name) == o.locate(s, k, name),
        decreases s.len() - k,
    {
        if 0 <= k < s.len() {
            assert(self.data(s[k] as int) == o.data(s[k] as int));
            self.lemma_locate_same(o, s, k + 1, name);
        }
    }

    /// What a search of a directory finds names a file.
    pub proof fn lemma_located(self, s: Seq<u32>, from: int, name: Seq<char>)
        requires
            0 <= from,
            self.locate(s, from, name) is Some,
        ensures
            ({
                let (k, i) = self.locate(s, from, name)->0;
                &&& from <= k < s.len()
                &&& dir::scan(self.data(s[k] as int), 0, name) == dir::Scan::Found(i)
                &&& 0 <= i
                &&& 32 * i + 32 <= self.bpb.byts_per_clus
                &&& dir::is_file_entry(dir::entry_at(self.data(s[k] as int), i))
            }),
        decreases s.len() - from,
    {
        match dir::scan(self.data(s[from] as int), 0, name) {
            dir::Scan::Found(i) => {
                lemma_scan_found(self.data(s[from] as int), 0, name);
            },
            dir::Scan::Ended => {},
            dir::Scan::Absent => {
                self.lemma_located(s, from + 1, name);
            },
        }
    }

    /// A change of a file's entry that keeps its name leaves it where it is.
    pub proof fn lemma_locate_updated(
        self,
        o: Self,
        s: Seq<u32>,
        from: int,
        name: Seq<char>,
        e: Seq<u8>,
    )
        requires
            s.no_duplicates(),
            forall|j: int| 0 <= j < s.len() ==> 2 <= #[trigger] s[j],
            0 <= from,
            o.locate(s, from, name) is Some,
            e.len() == 32,
            ({
                let (k, i) = o.locate(s, from, name)->0;
                let b = o.data(s[k] as int);
                &&& e.take(12) == dir::entry_at(b, i).take(12)
                &&& self.data(s[k] as int) == bytes::splice(b, 32 * i, e)
                &&& forall|j: int|
                    0 <= j < s.len() && j != k ==> self.data(#[trigger] s[j] as int) == o.data(
                        s[j] as int,
                    )
            }),
        ensures
            self.locate(s, from, name) == o.locate(s, from, name),
            ({
                let (k, i) = o.locate(s, from, name)->0;
                dir::entry_at(self.data(s[k] as int), i) == e
            }),
        decreases s.len() - from,
    {
        o.lemma_located(s, from, name);
        let (k, i) = o.locate(s, from, name)->0;
        let b = o.data(s[k] as int);
        let c = self.data(s[k] as int);
        assert(dir::entry_at(c, i) =~= e);
        if k == from {
            assert forall|j: int|
                0 <= j && 32 * j + 32 <= b.len() && j != i implies #[trigger] dir::entry_at(b, j)
                == dir::entry_at(c, j) by {
                assert(dir::entry_at(b, j) =~= dir::entry_at(c, j));
            }
            lemma_scan_same(b, c, i, 0, name);
        } else {
            assert(self.data(s[from] as int) == o.data(s[from] as int));
            self.lemma_locate_updated(o, s, from + 1, name, e);
        }
    }

    /// The first cluster and the size that the directory `p` states of the file with the
    /// name, where it has it.
    pub open spec fn stated(self, p: Seq<u32>, name: Seq<char>) -> Option<(int, int)> {
        match self.locate(p, 0, name) {
            Some((k, i)) => {
                let e = dir::entry_at(self.data(p[k] as int), i);
                Some((dirent::entry_cluster(e), dirent::entry_size(e)))
            },
            None => None,
        }
    }

    /// From `o`, the first cluster and the size, where given, were written to the entry with
    /// the name in the directory `p`, which is else as it was.
    pub open spec fn told(
        self,
        o: Self,
        p: Seq<u32>,
        name: Seq<char>,
        clus: Option<u32>,
        size: Option<u32>,
    ) -> bool {
        o.locate(p, 0, name) matches Some((k, i)) && forall|j: int|
            0 <= j < p.len() ==> self.data(#[trigger] p[j] as int) == (if j == k && (clus is Some
                || size is Some) {
                bytes::splice(
                    o.data(p[k] as int),
                    32 * i,
                    Self::updated_entry(dir::entry_at(o.data(p[k] as int), i), clus, size),
                )
            } else {
                o.data(p[j] as int)
            })
    }

    /// Setting the cluster of a file's entry tells the directory.
    pub proof fn lemma_told(
        self,
        o: Self,
        p: Seq<u32>,
        name: Seq<char>,
        clus: Option<u32>,
        size: Option<u32>,
    )
        requires
            o.is_file_chain(p[0] as int, p),
            clus is Some || size is Some,
            o.locate(p, 0, name) matches Some((k, i)) && self.cluster_set(
                o,
                p[k] as int,
                bytes::splice(
                    o.data(p[k] as int),
                    32 * i,
                    Self::updated_entry(dir::entry_at(o.data(p[k] as int), i), clus, size),
                ),
            ),
        ensures
            self.told(o, p, name, clus, size),
    {
        let (k, i) = o.locate(p, 0, name)->0;
        o.lemma_located(p, 0, name);
        o.lemma_chain_distinct(p[0] as int, p);
        assert forall|j: int| 0 <= j < p.len() && j != k implies self.data(#[trigger] p[j] as int)
            == o.data(p[j] as int) by {
            assert(o.is_cluster(p[j] as int));
            assert(p[j] != p[k]);
        }
    }

    /// An entry that was updated states what it was given, and keeps its name.
    proof fn lemma_updated_entry(e: Seq<u8>, clus: Option<u32>, size: Option<u32>)
        requires
            e.len() == 32,
        ensures
            ({
                let u = Self::updated_entry(e, clus, size);
                &&& u.len() == 32
                &&& u.take(12) == e.take(12)
                &&& dirent::entry_cluster(u) == if clus is Some {
                    clus->0 as int
                } else {
                    dirent::entry_cluster(e)
                }
                &&& dirent::entry_size(u) == if size is Some {
                    size->0 as int
                } else {
                    dirent::entry_size(e)
                }
            }),
    {
        let a = match clus {
            Some(c) => dirent::with_cluster(e, c as int),
            None => e,
        };
        let b = match size {
            Some(n) => dirent::with_size(a, n as int),
            None => a,
        };
        dirent::lemma_entry_fields(e, if clus is Some {
            clus->0 as int
        } else {
            0
        }, 0);
        dirent::lemma_entry_fields(a, 0, if size is Some {
            size->0 as int
        } else {
            0
        });
        dirent::lemma_entry_fields(b, 0, 0);
    }

    /// A directory states what it was told.
    pub proof fn lemma_told_is_stated(
        self,
        o: Self,
        p: Seq<u32>,
        name: Seq<char>,
        clus: Option<u32>,
        size: Option<u32>,
    )
        requires
            o.is_file_chain(p[0] as int, p),
            self.told(o, p, name, clus, size),
        ensures
            self.locate(p, 0, name) == o.locate(p, 0, name),
            ({
                let (k, i) = o.locate(p, 0, name)->0;
                clus is Some || size is Some ==> dir::entry_at(self.data(p[k] as int), i)
                    == Self::updated_entry(dir::entry_at(o.data(p[k] as int), i), clus, size)
            }),
            self.stated(p, name) == Some(
                (
                    if clus is Some {
                        clus->0 as int
                    } else {
                        o.stated(p, name).unwrap().0
                    },
                    if size is Some {
                        size->0 as int
                    } else {
                        o.stated(p, name).unwrap().1
                    },
                ),
            ),
    {
        let (k, i) = o.locate(p, 0, name)->0;
        o.lemma_located(p, 0, name);
        o.lemma_chain_distinct(p[0] as int, p);
        assert(self.data(p[k] as int) == self.data(p[k] as int));
        if clus is None && size is None {
            self.lemma_locate_same(o, p, 0, name);
            return;
        }
        let e = dir::entry_at(o.data(p[k] as int), i);
        let u = Self::updated_entry(e, clus, size);
        Self::lemma_updated_entry(e, clus, size);
        assert forall|j: int| 0 <= j < p.len() implies 2 <= #[trigger] p[j] by {
            assert(o.is_cluster(p[j] as int));
        }
        self.lemma_locate_updated(o, p, 0, name, u);
    }

    /// Where a cluster of a directory keeps its names, and the others hold the same, a search
    /// finds the same.
    proof fn lemma_locate_beside(
        self,
        o: Self,
        p: Seq<u32>,
        k: int,
        i: int,
        from: int,
        name: Seq<char>,
    )
        requires
            0 <= k < p.len(),
            0 <= from,
            same_names(o.data(p[k] as int), self.data(p[k] as int), i),
            forall|j: int|
                0 <= j < p.len() && j != k ==> self.data(#[trigger] p[j] as int) == o.data(
                    p[j] as int,
                ),
        ensures
            self.locate(p, from, name) == o.locate(p, from, name),
        decreases p.len() - from,
    {
        if from < p.len() {
            if from == k {
                lemma_scan_same(o.data(p[k] as int), self.data(p[k] as int), i, 0, name);
            } else {
                assert(self.data(p[from] as int) == o.data(p[from] as int));
            }
            self.lemma_locate_beside(o, p, k, i, from + 1, name);
        }
    }

    /// Telling a directory of one file leaves where the others are found, and what it states
    /// of them.
    pub proof fn lemma_told_beside(
        self,
        o: Self,
        p: Seq<u32>,
        name: Seq<char>,
        clus: Option<u32>,
        size: Option<u32>,
        other: Seq<char>,
    )
        requires
            o.is_file_chain(p[0] as int, p),
            self.told(o, p, name, clus, size),
        ensures
            self.locate(p, 0, other) == o.locate(p, 0, other),
            o.locate(p, 0, other) != o.locate(p, 0, name) ==> self.stated(p, other) == o.stated(
                p,
                other,
            ),
    {
        let (k, i) = o.locate(p, 0, name)->0;
        o.lemma_located(p, 0, name);
        self.lemma_told_is_stated(o, p, name, clus, size);
        if o.locate(p, 0, other) is Some {
            o.lemma_located(p, 0, other);
        }
        if clus is None && size is None {
            self.lemma_locate_same(o, p, 0, other);
            return;
        }
        let (b, c) = (o.data(p[k] as int), self.data(p[k] as int));
        let u = Self::updated_entry(dir::entry_at(b, i), clus, size);
        Self::lemma_updated_entry(dir::entry_at(b, i), clus, size);
        assert(c == bytes::splice(b, 32 * i, u));
        assert forall|j: int| 0 <= j && 32 * j + 32 <= b.len() && j != i implies #[trigger] dir::entry_at(
            b,
            j,
        ) == dir::entry_at(c, j) by {
            assert(dir::entry_at(b, j) =~= dir::entry_at(c, j));
        }
        self.lemma_locate_beside(o, p, k, i, 0, other);
        if o.locate(p, 0, other) is Some && o.locate(p, 0, other) != o.locate(p, 0, name) {
            let (k1, i1) = o.locate(p, 0, other)->0;
            if k1 == k {
                assert(dir::entry_at(b, i1) == dir::entry_at(c, i1));
            } else {
                assert(self.data(p[k1] as int) == o.data(p[k1] as int));
            }
        }
    }

    /// What is told of a directory that is the same is told of this one.
    pub proof fn lemma_told_from(
        self,
        c: Self,
        o: Self,
        p: Seq<u32>,
        name: Seq<char>,
        clus: Option<u32>,
        size: Option<u32>,
    )
        requires
            self.told(c, p, name, clus, size),
            forall|j: int|
                0 <= j < p.len() ==> c.data(#[trigger] p[j] as int) == o.data(p[j] as int),
        ensures
            self.told(o, p, name, clus, size),
    {
        c.lemma_locate_same(o, p, 0, name);
        c.lemma_located(p, 0, name);
        let (k, i) = c.locate(p, 0, name)->0;
        assert(c.data(p[k] as int) == o.data(p[k] as int));
        assert forall|j: int| 0 <= j < p.len() && j != k implies self.data(#[trigger] p[j] as int)
            == o.data(p[j] as int) by {
            assert(c.data(p[j] as int) == o.data(p[j] as int));
        }
    }

    /// Telling a directory the size later comes to telling it at once.
    pub proof fn lemma_told_again(
        self,
        m: Self,
        o: Self,
        p: Seq<u32>,
        name: Seq<char>,
        clus: Option<u32>,
        before: Option<u32>,
        size: u32,
    )
        requires
            o.is_file_chain(p[0] as int, p),
            m.told(o, p, name, clus, before),
            self.told(m, p, name, None, Some(size)),
        ensures
            self.told(o, p, name, clus, Some(size)),
    {
        let (k, i) = o.locate(p, 0, name)->0;
        o.lemma_located(p, 0, name);
        m.lemma_told_is_stated(o, p, name, clus, before);
        let b = o.data(p[k] as int);
        let e = dir::entry_at(b, i);
        let u = Self::updated_entry(e, clus, before);
        let last = Self::updated_entry(e, clus, Some(size));
        assert(m.data(p[k] as int) == m.data(p[k] as int));
        if clus is Some || before is Some {
            assert(Self::updated_entry(u, None, Some(size)) =~= last);
        }
        assert(self.data(p[k] as int) =~= bytes::splice(b, 32 * i, last));
        assert forall|j: int| 0 <= j < p.len() && j != k implies self.data(#[trigger] p[j] as int)
            == o.data(p[j] as int) by {
            assert(m.data(p[j] as int) == o.data(p[j] as int));
        }
    }
}

} // verus!
