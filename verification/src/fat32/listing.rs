//! How changes of a directory show in the list of its files.

use vstd::prelude::*;

use crate::blockdriver::traits::BlockDevice;
use crate::bytes;
use crate::fat32::dir;
use crate::fat32::dir::{Scan, SlotView};
use crate::fat32::dir_write;
use crate::fat32::dirent;
use crate::fat32::dirent::{ATTR_LONG_NAME, DIR_DELETED, DIR_END, MAX_LFN_ENTRIES};
use crate::fat32::inode::Fat32Inode;
use crate::fat32::names;
use crate::fat32::superblock::Fat32SuperBlock;
use crate::text;

verus! {

/// None of the first `n` entries of the directory `b` ends it.
pub open spec fn no_end(b: Seq<u8>, n: int) -> bool {
    forall|j: int| 0 <= j < n ==> (#[trigger] dir::entry_at(b, j))[0] != DIR_END
}

/// The entries of a long name at the end of the first `i` entries, whose short name is
/// still to come.
pub open spec fn pending_at(b: Seq<u8>, i: int) -> Seq<Seq<u8>>
    decreases i,
{
    if i <= 0 {
        Seq::empty()
    } else {
        let e = dir::entry_at(b, i - 1);
        if e[0] != DIR_DELETED && e[11] == ATTR_LONG_NAME {
            pending_at(b, i - 1).push(e)
        } else {
            Seq::empty()
        }
    }
}

/// The files among the first `i` entries.
pub open spec fn files_before(b: Seq<u8>, i: int) -> Seq<SlotView>
    decreases i,
{
    if i <= 0 {
        Seq::empty()
    } else {
        let e = dir::entry_at(b, i - 1);
        if e[0] == DIR_DELETED || e[11] == ATTR_LONG_NAME {
            files_before(b, i - 1)
        } else if dir::is_label(e[11]) {
            files_before(b, i - 1).push(SlotView { vfat: Seq::empty(), sfn: e })
        } else {
            files_before(b, i - 1).push(SlotView { vfat: pending_at(b, i - 1), sfn: e })
        }
    }
}

/// The files behind entry `i`, where no long name is pending.
pub open spec fn files_behind(b: Seq<u8>, i: int) -> Seq<SlotView> {
    dir::parse_from(b, i, Seq::empty(), Seq::empty())
}

/// Files that were found before stay in front of those that are found later.
proof fn lemma_parse_split(b: Seq<u8>, i: int, pending: Seq<Seq<u8>>, slots: Seq<SlotView>)
    ensures
        dir::parse_from(b, i, pending, slots) == slots + dir::parse_from(
            b,
            i,
            pending,
            Seq::empty(),
        ),
    decreases b.len() - 32 * i,
{
    let none: Seq<Seq<u8>> = Seq::empty();
    let no_slots: Seq<SlotView> = Seq::empty();
    if i < 0 || 32 * i + 32 > b.len() {
        assert(slots + no_slots =~= slots);
    } else {
        let e = dir::entry_at(b, i);
        if e[0] == DIR_END {
            assert(slots + no_slots =~= slots);
        } else if e[0] == DIR_DELETED {
            lemma_parse_split(b, i + 1, none, slots);
        } else if e[11] == ATTR_LONG_NAME {
            lemma_parse_split(b, i + 1, pending.push(e), slots);
        } else {
            let x = if dir::is_label(e[11]) {
                SlotView { vfat: none, sfn: e }
            } else {
                SlotView { vfat: pending, sfn: e }
            };
            lemma_parse_split(b, i + 1, none, slots.push(x));
            lemma_parse_split(b, i + 1, none, no_slots.push(x));
            let rest = dir::parse_from(b, i + 1, none, no_slots);
            assert(slots.push(x) + rest =~= slots + (no_slots.push(x) + rest));
        }
    }
}

/// Reading a directory comes past its first `i` entries, if none of them ends it.
proof fn lemma_parse_reaches(b: Seq<u8>, i: int)
    requires
        0 <= i,
        32 * i <= b.len(),
        no_end(b, i),
    ensures
        dir::dir_files(b) == dir::parse_from(b, i, pending_at(b, i), files_before(b, i)),
    decreases i,
{
    if i > 0 {
        lemma_parse_reaches(b, i - 1);
        assert(dir::entry_at(b, i - 1)[0] != DIR_END);
    }
}

/// Where two directories agree in their first `i` entries, so do the files there.
proof fn lemma_same_before(b: Seq<u8>, c: Seq<u8>, i: int)
    requires
        0 <= i,
        forall|j: int| 0 <= j < i ==> #[trigger] dir::entry_at(b, j) == dir::entry_at(c, j),
    ensures
        pending_at(b, i) == pending_at(c, i),
        files_before(b, i) == files_before(c, i),
    decreases i,
{
    if i > 0 {
        lemma_same_before(b, c, i - 1);
        assert(dir::entry_at(b, i - 1) == dir::entry_at(c, i - 1));
    }
}

/// Where two directories agree from entry `i` on, so do the files there.
proof fn lemma_same_behind(b: Seq<u8>, c: Seq<u8>, i: int, pending: Seq<Seq<u8>>, slots: Seq<SlotView>)
    requires
        0 <= i,
        b.len() == c.len(),
        forall|j: int|
            i <= j && 32 * j + 32 <= b.len() ==> #[trigger] dir::entry_at(b, j) == dir::entry_at(
                c,
                j,
            ),
    ensures
        dir::parse_from(b, i, pending, slots) == dir::parse_from(c, i, pending, slots),
    decreases b.len() - 32 * i,
{
    if 32 * i + 32 <= b.len() {
        let e = dir::entry_at(b, i);
        let none: Seq<Seq<u8>> = Seq::empty();
        assert(e == dir::entry_at(c, i));
        if e[0] == DIR_END {
        } else if e[0] == DIR_DELETED {
            lemma_same_behind(b, c, i + 1, none, slots);
        } else if e[11] == ATTR_LONG_NAME {
            lemma_same_behind(b, c, i + 1, pending.push(e), slots);
        } else if dir::is_label(e[11]) {
            lemma_same_behind(b, c, i + 1, none, slots.push(SlotView { vfat: none, sfn: e }));
        } else {
            lemma_same_behind(b, c, i + 1, none, slots.push(SlotView { vfat: pending, sfn: e }));
        }
    }
}

/// The entries of a file: those of its long name, if it has one, and then its short name.
/// None of them reads as deleted or as the end of the directory.
pub open spec fn is_group(es: Seq<Seq<u8>>) -> bool {
    &&& es.len() >= 1
    &&& forall|m: int|
        0 <= m < es.len() ==> (#[trigger] es[m]).len() == 32 && es[m][0] != DIR_END && es[m][0]
            != DIR_DELETED
    &&& forall|m: int| 0 <= m < es.len() - 1 ==> (#[trigger] es[m])[11] == ATTR_LONG_NAME
    &&& es.last()[11] != ATTR_LONG_NAME
    &&& !dir::is_label(es.last()[11])
}

/// The file that entries stand for.
pub open spec fn file_of(es: Seq<Seq<u8>>) -> SlotView {
    SlotView { vfat: es.drop_last(), sfn: es.last() }
}

/// Reading comes past the entries of a file from number `m` on.
proof fn lemma_group_parsed(b: Seq<u8>, at: int, es: Seq<Seq<u8>>, m: int, slots: Seq<SlotView>)
    requires
        0 <= at,
        is_group(es),
        0 <= m < es.len(),
        32 * (at + es.len()) <= b.len(),
        forall|j: int| 0 <= j < es.len() ==> dir::entry_at(b, at + j) == #[trigger] es[j],
    ensures
        dir::parse_from(b, at + m, es.take(m), slots) == dir::parse_from(
            b,
            at + es.len(),
            Seq::empty(),
            slots.push(file_of(es)),
        ),
    decreases es.len() - m,
{
    assert(dir::entry_at(b, at + m) == es[m]);
    if m < es.len() - 1 {
        assert(es.take(m).push(es[m]) =~= es.take(m + 1));
        lemma_group_parsed(b, at, es, m + 1, slots);
    } else {
        assert(es.take(m) =~= es.drop_last());
    }
}

/// The entries of a file that are put into a directory are listed as that file, behind the
/// files that stand before them, if the directory does not end before that place and no
/// long name is pending there.
pub proof fn law_added_is_listed(b: Seq<u8>, at: int, es: Seq<Seq<u8>>)
    requires
        0 <= at,
        32 * (at + es.len()) <= b.len(),
        is_group(es),
        no_end(b, at),
        pending_at(b, at).len() == 0,
    ensures
        ({
            let c = bytes::splice(b, 32 * at, dir_write::flat(es));
            dir::dir_files(c) == files_before(b, at).push(file_of(es)) + files_behind(
                c,
                at + es.len(),
            )
        }),
{
    let c = bytes::splice(b, 32 * at, dir_write::flat(es));
    assert forall|j: int| 0 <= j < at implies #[trigger] dir::entry_at(b, j) == dir::entry_at(
        c,
        j,
    ) by {
        assert(dir::entry_at(b, j) =~= dir::entry_at(c, j));
    }
    lemma_same_before(b, c, at);
    assert(no_end(c, at)) by {
        assert forall|j: int| 0 <= j < at implies (#[trigger] dir::entry_at(c, j))[0] != DIR_END by {
            assert(dir::entry_at(b, j) == dir::entry_at(c, j));
        }
    }
    lemma_parse_reaches(c, at);
    assert forall|j: int| 0 <= j < es.len() implies dir::entry_at(c, at + j) == #[trigger] es[j] by {
        let e = dir::entry_at(c, at + j);
        assert forall|q: int| 0 <= q < 32 implies e[q] == es[j][q] by {
            let p = 32 * j + q;
            assert(c[32 * (at + j) + q] == dir_write::flat(es)[p]);
            assert(p / 32 == j && p % 32 == q);
        }
        assert(e =~= es[j]);
    }
    assert(pending_at(b, at) =~= Seq::<Seq<u8>>::empty());
    assert(es.take(0) =~= Seq::<Seq<u8>>::empty());
    lemma_group_parsed(c, at, es, 0, files_before(b, at));
    lemma_parse_split(c, at + es.len(), Seq::empty(), files_before(b, at).push(file_of(es)));
}

/// Entries of a long name add no file.
proof fn lemma_names_add_nothing(b: Seq<u8>, from: int, to: int)
    requires
        0 <= from <= to,
        forall|j: int| from <= j < to ==> (#[trigger] dir::entry_at(b, j))[11] == ATTR_LONG_NAME,
    ensures
        files_before(b, to) == files_before(b, from),
    decreases to - from,
{
    if from < to {
        lemma_names_add_nothing(b, from, to - 1);
        assert(dir::entry_at(b, to - 1)[11] == ATTR_LONG_NAME);
    }
}

/// Deleted entries add no file.
proof fn lemma_deleted_add_nothing(b: Seq<u8>, from: int, to: int)
    requires
        0 <= from <= to,
        forall|j: int| from <= j < to ==> (#[trigger] dir::entry_at(b, j))[0] == DIR_DELETED,
    ensures
        files_before(b, to) == files_before(b, from),
        from < to ==> pending_at(b, to).len() == 0,
    decreases to - from,
{
    if from < to {
        lemma_deleted_add_nothing(b, from, to - 1);
        assert(dir::entry_at(b, to - 1)[0] == DIR_DELETED);
    }
}

/// Marking the entry `i` of a file, and those of its long name from `from` on, as deleted
/// takes that file, and no other, out of the list.
pub proof fn law_removed_is_gone(b: Seq<u8>, from: int, i: int)
    requires
        0 <= from <= i,
        32 * i + 32 <= b.len(),
        no_end(b, i + 1),
        forall|j: int| from <= j < i ==> (#[trigger] dir::entry_at(b, j))[11] == ATTR_LONG_NAME,
        dir::is_file_entry(dir::entry_at(b, i)),
    ensures
        ({
            let n = files_before(b, from).len() as int;
            &&& n < dir::dir_files(b).len()
            &&& dir::dir_files(b)[n] == (SlotView {
                vfat: pending_at(b, i),
                sfn: dir::entry_at(b, i),
            })
            &&& dir::dir_files(dir::with_deleted(b, from, i)) == dir::dir_files(b).remove(n)
        }),
{
    let c = dir::with_deleted(b, from, i);
    let x = SlotView { vfat: pending_at(b, i), sfn: dir::entry_at(b, i) };
    let head = files_before(b, from);
    assert forall|j: int| 0 <= j < from implies #[trigger] dir::entry_at(b, j) == dir::entry_at(
        c,
        j,
    ) by {
        assert(dir::entry_at(b, j) =~= dir::entry_at(c, j));
    }
    assert forall|j: int| from <= j < i + 1 implies (#[trigger] dir::entry_at(c, j))[0]
        == DIR_DELETED by {
        assert(c[32 * j] == DIR_DELETED);
    }
    assert forall|j: int| i + 1 <= j && 32 * j + 32 <= b.len() implies #[trigger] dir::entry_at(b, j)
        == dir::entry_at(c, j) by {
        assert(dir::entry_at(b, j) =~= dir::entry_at(c, j));
    }
    lemma_same_before(b, c, from);
    lemma_names_add_nothing(b, from, i);
    lemma_deleted_add_nothing(c, from, i + 1);
    assert(no_end(c, i + 1)) by {
        assert forall|j: int| 0 <= j < i + 1 implies (#[trigger] dir::entry_at(c, j))[0]
            != DIR_END by {
            if j < from {
                assert(dir::entry_at(b, j) == dir::entry_at(c, j));
            }
        }
    }
    lemma_parse_reaches(b, i + 1);
    lemma_parse_reaches(c, i + 1);
    assert(files_before(b, i + 1) == head.push(x));
    assert(pending_at(b, i + 1) =~= Seq::<Seq<u8>>::empty());
    assert(pending_at(c, i + 1) =~= Seq::<Seq<u8>>::empty());
    let none: Seq<Seq<u8>> = Seq::empty();
    lemma_parse_split(b, i + 1, none, head.push(x));
    lemma_parse_split(c, i + 1, none, head);
    lemma_same_behind(b, c, i + 1, none, Seq::empty());
    let tail = files_behind(b, i + 1);
    assert(dir::dir_files(b) == head.push(x) + tail);
    assert(dir::dir_files(c) == head + tail);
    assert((head.push(x) + tail).remove(head.len() as int) =~= head + tail);
}

/// A search that finds nothing, or finds entry `i`, has met no end before.
proof fn lemma_scan_no_end(b: Seq<u8>, j: int, name: Seq<char>)
    requires
        0 <= j,
        !(dir::scan(b, j, name) is Ended),
    ensures
        match dir::scan(b, j, name) {
            Scan::Found(i) => forall|e: int|
                j <= e <= i ==> (#[trigger] dir::entry_at(b, e))[0] != DIR_END,
            _ => forall|e: int|
                j <= e && 32 * e + 32 <= b.len() ==> (#[trigger] dir::entry_at(b, e))[0] != DIR_END,
        },
    decreases b.len() - 32 * j,
{
    if 32 * j + 32 <= b.len() {
        if !(dir::is_file_entry(dir::entry_at(b, j)) && text::lower(dir::local_name(b, j))
            == text::lower(name)) {
            lemma_scan_no_end(b, j + 1, name);
        }
    }
}

proof fn lemma_lfn_start(b: Seq<u8>, i: int)
    requires
        0 <= i,
    ensures
        0 <= dir::lfn_start(b, i) <= i,
        forall|j: int|
            dir::lfn_start(b, i) <= j < i ==> (#[trigger] dir::entry_at(b, j))[11] == ATTR_LONG_NAME,
    decreases i,
{
    if i > 0 && dir::entry_at(b, i - 1)[11] == ATTR_LONG_NAME {
        lemma_lfn_start(b, i - 1);
    }
}

/// Where `need` entries fit lies within the cluster.
proof fn lemma_find_room(b: Seq<u8>, i: int, need: int)
    requires
        0 <= i,
        dir_write::find_room(b, i, need) is Some,
    ensures
        ({
            let r = dir_write::find_room(b, i, need)->0;
            i <= r && r + need <= b.len() / 32
        }),
    decreases b.len() - 32 * i,
{
    let n = b.len() as int / 32;
    if 32 * i + 32 <= b.len() {
        if dir_write::is_vacant(b, i) && dir_write::room_at(b, i, n) >= need {
            lemma_vacant_run(b, i, n);
        } else {
            lemma_find_room(b, i + 1, need);
        }
    }
}

proof fn lemma_vacant_run(b: Seq<u8>, i: int, n: int)
    requires
        i <= n,
    ensures
        dir_write::vacant_run(b, i, n) <= n - i,
    decreases n - i,
{
    if i < n {
        lemma_vacant_run(b, i + 1, n);
    }
}

impl<D: BlockDevice> Fat32SuperBlock<D> {
    /// The number of entries in a cluster.
    pub open spec fn entries_per_cluster(self) -> int {
        self.bpb.byts_per_clus as int / 32
    }

    /// The entry of the directory `s` from which on `need` entries are put.
    pub open spec fn place_index(self, s: Seq<u32>, need: int) -> int {
        match self.place(s, 0, need) {
            Some((k, i)) => k * self.entries_per_cluster() + i,
            None => s.len() * self.entries_per_cluster(),
        }
    }

    proof fn lemma_place(self, s: Seq<u32>, from: int, need: int)
        requires
            0 <= from,
            self.place(s, from, need) is Some,
        ensures
            ({
                let (k, i) = self.place(s, from, need)->0;
                &&& from <= k < s.len()
                &&& 0 <= i
                &&& i + need <= self.entries_per_cluster()
            }),
        decreases s.len() - from,
    {
        match dir_write::find_room(self.data(s[from] as int), 0, need) {
            Some(i) => lemma_find_room(self.data(s[from] as int), 0, need),
            None => self.lemma_place(s, from + 1, need),
        }
    }

    /// A search that comes to cluster `k` has met no end before what it found there.
    proof fn lemma_locate_no_end(self, s: Seq<u32>, from: int, name: Seq<char>)
        requires
            0 <= from,
            self.locate(s, from, name) is Some,
        ensures
            ({
                let (k, i) = self.locate(s, from, name)->0;
                &&& forall|m: int, j: int|
                    from <= m < k && 0 <= j && 32 * j + 32 <= self.bpb.byts_per_clus ==> (
                    #[trigger] dir::entry_at(self.data(s[m] as int), j))[0] != DIR_END
                &&& forall|j: int|
                    0 <= j <= i ==> (#[trigger] dir::entry_at(self.data(s[k] as int), j))[0]
                        != DIR_END
            }),
        decreases s.len() - from,
    {
        let b = self.data(s[from] as int);
        match dir::scan(b, 0, name) {
            Scan::Found(i) => lemma_scan_no_end(b, 0, name),
            Scan::Ended => {},
            Scan::Absent => {
                lemma_scan_no_end(b, 0, name);
                self.lemma_locate_no_end(s, from + 1, name);
            },
        }
    }

    /// Where entry `e` of a directory stands.
    proof fn lemma_entry_place(self, s: Seq<u32>, e: int)
        requires
            self.bpb.wf(),
            0 <= e < s.len() * self.entries_per_cluster(),
        ensures
            ({
                let n = self.entries_per_cluster();
                &&& n > 0
                &&& 0 <= e / n < s.len()
                &&& 0 <= e % n < n
                &&& e == e / n * n + e % n
                &&& dir::entry_at(self.chain_bytes(s), e) == dir::entry_at(
                    self.data(s[e / n] as int),
                    e % n,
                )
            }),
    {
        let n = self.entries_per_cluster();
        vstd::arithmetic::div_mod::lemma_fundamental_div_mod(e, n);
        assert(e / n < s.len()) by (nonlinear_arith)
            requires
                0 <= e < s.len() * n,
                n > 0,
                e == n * (e / n) + e % n,
                0 <= e % n,
        ;
        assert(e / n >= 0) by (nonlinear_arith)
            requires
                0 <= e,
                n > 0,
        ;
        assert(n * (e / n) == e / n * n) by (nonlinear_arith);
        self.lemma_dir_entry(s, e / n, e % n);
    }
}

/// Two directories of one length that agree in every entry hold the same.
proof fn lemma_entries_make_up(b: Seq<u8>, c: Seq<u8>)
    requires
        b.len() == c.len(),
        b.len() as int % 32 == 0,
        forall|e: int| 0 <= e < b.len() as int / 32 ==> #[trigger] dir::entry_at(b, e) == dir::entry_at(
            c,
            e,
        ),
    ensures
        b == c,
{
    assert forall|p: int| 0 <= p < b.len() implies b[p] == c[p] by {
        let e = p / 32;
        assert(dir::entry_at(b, e)[p % 32] == dir::entry_at(c, e)[p % 32]);
    }
    assert(b =~= c);
}

/// An entry of a directory and of the cluster it stands in, both with some entries deleted.
proof fn lemma_deleted_entry(
    b: Seq<u8>,
    from: int,
    to: int,
    e: int,
    x: Seq<u8>,
    start: int,
    i: int,
    j: int,
)
    requires
        0 <= e,
        32 * e + 32 <= b.len(),
        0 <= j,
        32 * j + 32 <= x.len(),
        dir::entry_at(b, e) == dir::entry_at(x, j),
        from <= e <= to <==> start <= j <= i,
    ensures
        dir::entry_at(dir::with_deleted(b, from, to), e) == dir::entry_at(
            dir::with_deleted(x, start, i),
            j,
        ),
{
    let l = dir::entry_at(dir::with_deleted(b, from, to), e);
    let r = dir::entry_at(dir::with_deleted(x, start, i), j);
    assert forall|q: int| 0 <= q < 32 implies l[q] == r[q] by {
        assert((32 * j + q) % 32 == q && (32 * j + q) / 32 == j);
        assert((32 * e + q) % 32 == q && (32 * e + q) / 32 == e);
        assert(dir::entry_at(b, e)[q] == b[32 * e + q]);
        assert(dir::entry_at(x, j)[q] == x[32 * j + q]);
    }
    assert(l =~= r);
}

/// An entry that is not among the deleted ones is as it was.
proof fn lemma_kept_entry(b: Seq<u8>, from: int, to: int, e: int)
    requires
        0 <= e,
        32 * e + 32 <= b.len(),
        !(from <= e <= to),
    ensures
        dir::entry_at(dir::with_deleted(b, from, to), e) == dir::entry_at(b, e),
{
    let l = dir::entry_at(dir::with_deleted(b, from, to), e);
    let r = dir::entry_at(b, e);
    assert forall|q: int| 0 <= q < 32 implies l[q] == r[q] by {
        assert((32 * e + q) % 32 == q && (32 * e + q) / 32 == e);
    }
    assert(l =~= r);
}

/// A name that was removed from a directory takes one file out of the list of its files, the
/// one whose short entry was found by the name, and no other.
pub proof fn law_removed_name_is_not_listed<D: BlockDevice>(
    o: Fat32SuperBlock<D>,
    f: Fat32SuperBlock<D>,
    clus: u32,
    s: Seq<u32>,
    name: Seq<char>,
)
    requires
        o.inv(),
        o.sound(),
        o.is_file_chain(clus as int, s),
        f.name_removed(o, clus, name),
    ensures
        f.is_file_chain(clus as int, s),
        o.locate(s, 0, name) is Some,
        exists|n: int|
            #![trigger dir::dir_files(o.chain_bytes(s))[n]]
            {
                let (k, i) = o.locate(s, 0, name)->0;
                let files = dir::dir_files(o.chain_bytes(s));
                &&& 0 <= n < files.len()
                &&& files[n].sfn == dir::entry_at(o.data(s[k] as int), i)
                &&& dir::dir_files(f.chain_bytes(s)) == files.remove(n)
            },
{
    let (k, i) = o.locate(s, 0, name)->0;
    let n = o.entries_per_cluster();
    let old_data = o.data(s[k] as int);
    let start = dir::lfn_start(old_data, i);
    let new_data = dir::with_deleted(old_data, start, i);
    let b = o.chain_bytes(s);
    let c = f.chain_bytes(s);
    o.lemma_located(s, 0, name);
    o.lemma_locate_no_end(s, 0, name);
    o.lemma_chain_distinct(clus as int, s);
    lemma_lfn_start(old_data, i);
    crate::fat32::file_write::lemma_chain_same(o, f, clus as int, s);
    let at = k * n + i;
    let from = k * n + start;
    let total = s.len() * n;
    assert(k * n + n <= total) by (nonlinear_arith)
        requires
            k + 1 <= s.len(),
            n >= 0,
            total == s.len() * n,
    ;
    assert(0 <= k * n) by (nonlinear_arith)
        requires
            0 <= k,
            0 <= n,
    ;
    assert(s.len() * o.bpb.byts_per_clus == 32 * total) by (nonlinear_arith)
        requires
            o.bpb.byts_per_clus == 32 * n,
            total == s.len() * n,
    ;
    let d = dir::with_deleted(b, from, at);
    assert forall|e: int| 0 <= e < c.len() as int / 32 implies #[trigger] dir::entry_at(c, e)
        == dir::entry_at(d, e) by {
        o.lemma_entry_place(s, e);
        f.lemma_entry_place(s, e);
        let m = e / n;
        let j = e % n;
        assert(s[m] as int >= 2);
        if m == k {
            lemma_deleted_entry(b, from, at, e, old_data, start, i, j);
        } else {
            assert(s[m] != s[k]);
            assert(f.data(s[m] as int) == o.data(s[m] as int));
            assert(e < from || e > at) by (nonlinear_arith)
                requires
                    e == m * n + j,
                    0 <= j < n,
                    m != k,
                    from == k * n + start,
                    at == k * n + i,
                    0 <= start <= i < n,
            ;
            lemma_kept_entry(b, from, at, e);
        }
    }
    lemma_entries_make_up(c, d);
    assert(no_end(b, at + 1)) by {
        assert forall|e: int| 0 <= e < at + 1 implies (#[trigger] dir::entry_at(b, e))[0]
            != DIR_END by {
            o.lemma_entry_place(s, e);
            let m = e / n;
            let j = e % n;
            assert(m < k || (m == k && j <= i)) by (nonlinear_arith)
                requires
                    e == m * n + j,
                    0 <= j < n,
                    e <= k * n + i,
                    0 <= i < n,
            ;
            if m < k {
                assert(dir::entry_at(o.data(s[m] as int), j)[0] != DIR_END);
            } else {
                assert(dir::entry_at(o.data(s[k] as int), j)[0] != DIR_END);
            }
        }
    }
    assert forall|e: int| from <= e < at implies (#[trigger] dir::entry_at(b, e))[11]
        == ATTR_LONG_NAME by {
        o.lemma_dir_entry(s, k, e - k * n);
    }
    o.lemma_dir_entry(s, k, i);
    law_removed_is_gone(b, from, at);
    let files = dir::dir_files(b);
    let w = files_before(b, from).len() as int;
    assert(files[w].sfn == dir::entry_at(old_data, i));
}

/// The bytes `c` of a directory list the file of the entries `es` right behind the files that
/// stood before entry `at` of `b`.
pub open spec fn lists_behind(c: Seq<u8>, b: Seq<u8>, at: int, es: Seq<Seq<u8>>) -> bool {
    let n = files_before(b, at).len() as int;
    let files = dir::dir_files(c);
    n < files.len() && files[n] == file_of(es) && files.take(n) == files_before(b, at)
}

/// Entries that were put where there was room are listed.
#[verifier::spinoff_prover]
proof fn lemma_listed_in_place<D: BlockDevice>(
    o: Fat32SuperBlock<D>,
    f: Fat32SuperBlock<D>,
    clus: u32,
    s: Seq<u32>,
    es: Seq<Seq<u8>>,
    k: int,
    i: int,
)
    requires
        o.inv(),
        o.tracked_ok(),
        o.is_file_chain(clus as int, s),
        is_group(es),
        32 * es.len() <= o.bpb.byts_per_clus,
        no_end(o.chain_bytes(s), o.place_index(s, es.len() as int)),
        pending_at(o.chain_bytes(s), o.place_index(s, es.len() as int)).len() == 0,
        f.entries_added(o, s, es),
        o.place(s, 0, es.len() as int) == Some((k, i)),
    ensures
        f.is_file_chain(clus as int, s),
        lists_behind(
            f.chain_bytes(s),
            o.chain_bytes(s),
            o.place_index(s, es.len() as int),
            es,
        ),
{
    let need = es.len() as int;
    let n = o.entries_per_cluster();
    let b = o.chain_bytes(s);
    let at = o.place_index(s, need);
    let total = s.len() * n;
    assert(s.len() * o.bpb.byts_per_clus == 32 * total) by (nonlinear_arith)
        requires
            o.bpb.byts_per_clus == 32 * n,
            total == s.len() * n,
    ;
    o.lemma_chain_distinct(clus as int, s);
    o.lemma_place(s, 0, need);
    crate::fat32::file_write::lemma_chain_same(o, f, clus as int, s);
    let c = f.chain_bytes(s);
    let d = bytes::splice(b, 32 * at, dir_write::flat(es));
    assert(k * n + n <= total) by (nonlinear_arith)
        requires
            k + 1 <= s.len(),
            n >= 0,
            total == s.len() * n,
    ;
    assert(0 <= k * n) by (nonlinear_arith)
        requires
            0 <= k,
            0 <= n,
    ;
    assert forall|e: int| 0 <= e < c.len() as int / 32 implies #[trigger] dir::entry_at(c, e)
        == dir::entry_at(d, e) by {
        o.lemma_entry_place(s, e);
        f.lemma_entry_place(s, e);
        let m = e / n;
        let j = e % n;
        assert(s[m] as int >= 2);
        let x = dir::entry_at(c, e);
        let y = dir::entry_at(d, e);
        let old_data = o.data(s[m] as int);
        if m == k {
            let put = bytes::splice(old_data, 32 * i, dir_write::flat(es));
            assert(f.data(s[k] as int) == put);
            assert forall|q: int| 0 <= q < 32 implies x[q] == y[q] by {
                assert(x[q] == put[32 * j + q]);
                assert(y[q] == d[32 * e + q]);
                assert(dir::entry_at(b, e)[q] == old_data[32 * j + q]);
                assert(b[32 * e + q] == dir::entry_at(b, e)[q]);
                assert(32 * e + q - 32 * at == 32 * j + q - 32 * i);
            }
        } else {
            assert(s[m] != s[k]);
            assert(f.data(s[m] as int) == old_data);
            assert(e < at || e >= at + need) by (nonlinear_arith)
                requires
                    e == m * n + j,
                    0 <= j < n,
                    m != k,
                    at == k * n + i,
                    0 <= i,
                    i + need <= n,
                    need >= 1,
            ;
            assert forall|q: int| 0 <= q < 32 implies x[q] == y[q] by {
                assert(y[q] == d[32 * e + q]);
                assert(b[32 * e + q] == dir::entry_at(b, e)[q]);
            }
        }
        assert(x =~= y);
    }
    lemma_entries_make_up(c, d);
    law_added_is_listed(b, at, es);
    let w = files_before(b, at).len() as int;
    assert(dir::dir_files(c)[w] == file_of(es));
    assert(dir::dir_files(c).take(w) =~= files_before(b, at));
}

/// Entries that were put into a new cluster are listed.
#[verifier::spinoff_prover]
proof fn lemma_listed_behind<D: BlockDevice>(
    o: Fat32SuperBlock<D>,
    f: Fat32SuperBlock<D>,
    clus: u32,
    s: Seq<u32>,
    es: Seq<Seq<u8>>,
    v: u32,
)
    requires
        o.inv(),
        o.tracked_ok(),
        o.is_file_chain(clus as int, s),
        is_group(es),
        32 * es.len() <= o.bpb.byts_per_clus,
        no_end(o.chain_bytes(s), o.place_index(s, es.len() as int)),
        pending_at(o.chain_bytes(s), o.place_index(s, es.len() as int)).len() == 0,
        f.dir_grown(o, s, v, es),
        o.place(s, 0, es.len() as int) is None,
    ensures
        f.is_file_chain(clus as int, s.push(v)),
        lists_behind(
            f.chain_bytes(s.push(v)),
            o.chain_bytes(s),
            o.place_index(s, es.len() as int),
            es,
        ),
{
    let need = es.len() as int;
    let n = o.entries_per_cluster();
    let b = o.chain_bytes(s);
    let at = o.place_index(s, need);
    let total = s.len() * n;
    assert(s.len() * o.bpb.byts_per_clus == 32 * total) by (nonlinear_arith)
        requires
            o.bpb.byts_per_clus == 32 * n,
            total == s.len() * n,
    ;
    o.lemma_chain_distinct(clus as int, s);
    let t = s.push(v);
    let cs = o.bpb.byts_per_clus as int;
    let zeros = crate::fat32::grow::zeros(cs);
    let wide = b + zeros;
    let c = f.chain_bytes(t);
    let d = bytes::splice(wide, 32 * at, dir_write::flat(es));
    assert(t.len() * n == total + n) by (nonlinear_arith)
        requires
            t.len() == s.len() + 1,
            total == s.len() * n,
    ;
    assert(t.len() * cs == 32 * (total + n)) by (nonlinear_arith)
        requires
            cs == 32 * n,
            t.len() * n == total + n,
    ;
    f.lemma_chain_distinct(clus as int, t);
    assert forall|e: int| 0 <= e < c.len() as int / 32 implies #[trigger] dir::entry_at(c, e)
        == dir::entry_at(d, e) by {
        f.lemma_entry_place(t, e);
        let m = e / n;
        let j = e % n;
        let x = dir::entry_at(c, e);
        let y = dir::entry_at(d, e);
        if m < s.len() {
            assert(e < total) by (nonlinear_arith)
                requires
                    e == m * n + j,
                    0 <= j < n,
                    m + 1 <= s.len(),
                    total == s.len() * n,
            ;
            o.lemma_entry_place(s, e);
            assert(t[m] == s[m]);
            assert(t[m] != t[s.len() as int]);
            assert(s[m] as int >= 2);
            assert(f.data(s[m] as int) == o.data(s[m] as int));
            assert forall|q: int| 0 <= q < 32 implies x[q] == y[q] by {
                assert(y[q] == d[32 * e + q]);
                assert(b[32 * e + q] == dir::entry_at(b, e)[q]);
            }
        } else {
            assert(e == total + j);
            let put = bytes::splice(zeros, 0, dir_write::flat(es));
            assert(f.data(v as int) == put);
            assert forall|q: int| 0 <= q < 32 implies x[q] == y[q] by {
                assert(x[q] == put[32 * j + q]);
                assert(y[q] == d[32 * e + q]);
                assert(wide[32 * e + q] == zeros[32 * j + q]);
            }
        }
        assert(x =~= y);
    }
    lemma_entries_make_up(c, d);
    assert forall|e: int| 0 <= e < at implies #[trigger] dir::entry_at(b, e)
        == dir::entry_at(wide, e) by {
        assert(dir::entry_at(b, e) =~= dir::entry_at(wide, e));
    }
    lemma_same_before(b, wide, at);
    assert(no_end(wide, at)) by {
        assert forall|e: int| 0 <= e < at implies (#[trigger] dir::entry_at(wide, e))[0]
            != DIR_END by {
            assert(dir::entry_at(b, e) == dir::entry_at(wide, e));
        }
    }
    law_added_is_listed(wide, at, es);
    let w = files_before(b, at).len() as int;
    assert(dir::dir_files(c)[w] == file_of(es));
    assert(dir::dir_files(c).take(w) =~= files_before(b, at));
}

/// The entries of a file that were added to a directory are listed as that file, right behind
/// the files that stood before them, if the directory does not end before the place where
/// they were put and no long name is pending there.
pub proof fn law_added_file_is_listed<D: BlockDevice>(
    o: Fat32SuperBlock<D>,
    f: Fat32SuperBlock<D>,
    clus: u32,
    s: Seq<u32>,
    es: Seq<Seq<u8>>,
)
    requires
        o.inv(),
        o.tracked_ok(),
        o.is_file_chain(clus as int, s),
        is_group(es),
        32 * es.len() <= o.bpb.byts_per_clus,
        f.entries_put(o, clus, es),
        no_end(o.chain_bytes(s), o.place_index(s, es.len() as int)),
        pending_at(o.chain_bytes(s), o.place_index(s, es.len() as int)).len() == 0,
    ensures
        exists|t: Seq<u32>| #[trigger]
            f.is_file_chain(clus as int, t) && lists_behind(
                f.chain_bytes(t),
                o.chain_bytes(s),
                o.place_index(s, es.len() as int),
                es,
            ),
{
    assert(f.entries_added(o, s, es));
    match o.place(s, 0, es.len() as int) {
        Some((k, i)) => {
            lemma_listed_in_place(o, f, clus, s, es, k, i);
        },
        None => {
            let v = choose|v: u32| #[trigger] f.dir_grown(o, s, v, es);
            lemma_listed_behind(o, f, clus, s, es, v);
        },
    }
}

/// The order byte of an entry of a long name is neither that of a deleted entry nor the end
/// of the directory.
proof fn lemma_order(needed: int, i: int)
    requires
        0 <= i < needed <= MAX_LFN_ENTRIES,
    ensures
        dirent::vfat_order(needed, i) != DIR_END,
        dirent::vfat_order(needed, i) != DIR_DELETED,
{
    let ord = ((needed - i) % 256) as u8;
    assert(1 <= ord <= 20);
    assert((ord | 0x40u8) != 0 && (ord | 0x40u8) != 0xE5) by (bit_vector)
        requires
            1 <= ord <= 20,
    ;
}

proof fn lemma_short_entry(sfn: Seq<u8>, attr: u8, case: u8, clus: int, size: int)
    ensures
        names::short_entry(sfn, attr, case, clus, size).len() == 32,
        forall|i: int|
            0 <= i < 11 ==> #[trigger] names::short_entry(sfn, attr, case, clus, size)[i] == sfn[i],
        names::short_entry(sfn, attr, case, clus, size)[11] == attr,
{
}

/// The attributes are those of a file or of a directory.
pub open spec fn is_plain(attr: u8) -> bool {
    attr != ATTR_LONG_NAME && !dir::is_label(attr)
}

/// The entries of a new file with a long name are listed as one file, under that name. Its
/// short name does not begin as a deleted entry does.
pub proof fn law_long_name_is_spelled(
    name: Seq<char>,
    sfn: Seq<u8>,
    es: Seq<Seq<u8>>,
    attr: u8,
    case: u8,
    clus: int,
    size: int,
)
    requires
        names::is_group(es, name, sfn, attr, case, clus, size),
        dirent::is_long_name(name, vstd::utf8::encode_utf8(name)),
        dirent::lfn_slots(name) <= MAX_LFN_ENTRIES,
        forall|k: int|
            0 <= k < text::utf16(name).len() ==> (#[trigger] text::utf16(name)[k]) != 0
                && text::utf16(name)[k] != 0xFFFF,
        sfn[0] != DIR_END,
        sfn[0] != DIR_DELETED,
        is_plain(attr),
    ensures
        is_group(es),
        dir::slot_name(file_of(es)) == name,
{
    let units = text::utf16(name);
    let lead = es.drop_last();
    let needed = lead.len() as int;
    let sum = dirent::checksum_of(sfn, 11) as u8;
    lemma_short_entry(sfn, attr, case, clus, size);
    assert forall|m: int| 0 <= m < needed implies (#[trigger] es[m]).len() == 32 && es[m][11]
        == ATTR_LONG_NAME && es[m][0] != DIR_END && es[m][0] != DIR_DELETED by {
        let i = needed - 1 - m;
        assert(es[m] == lead[needed - 1 - i]);
        lemma_order(needed, i);
    }
    assert(name.len() > 0) by {
        if name.len() == 0 {
            assert(vstd::utf8::encode_utf8(name) =~= Seq::<u8>::empty());
        }
    }
    assert(units.len() > 0);
    dirent::law_vfat_name_round_trip(name, lead, sum);
}

/// The first file with a name, where the files before number `n` do not have it.
proof fn lemma_first_named(files: Seq<SlotView>, name: Seq<char>, n: int, from: int)
    requires
        0 <= from <= n < files.len(),
        forall|k: int|
            from <= k < n ==> text::lower(dir::slot_name(#[trigger] files[k])) != text::lower(name),
        text::lower(dir::slot_name(files[n])) == text::lower(name),
    ensures
        names::first_named(files, name, from) == Some(n),
    decreases n - from,
{
    if from < n {
        assert(text::lower(dir::slot_name(files[from])) != text::lower(name));
        lemma_first_named(files, name, n, from + 1);
    }
}

proof fn lemma_none_named(files: Seq<SlotView>, name: Seq<char>, from: int, k: int)
    requires
        0 <= from <= k < files.len(),
        names::first_named(files, name, from) is None,
    ensures
        text::lower(dir::slot_name(files[k])) != text::lower(name),
    decreases k - from,
{
    if from < k {
        lemma_none_named(files, name, from + 1, k);
    }
}

/// A file that was made is found by its name, if its entries spell the name, the directory
/// does not end before the place where they were put, and no long name is pending there.
pub proof fn law_created_is_found<D: BlockDevice>(
    dir_node: Fat32Inode,
    o: Fat32SuperBlock<D>,
    m: Fat32SuperBlock<D>,
    f: Fat32SuperBlock<D>,
    s: Seq<u32>,
    name: Seq<char>,
    sfn: Seq<u8>,
    es: Seq<Seq<u8>>,
    attr: u8,
    clus: u32,
)
    requires
        o.inv(),
        o.tracked_ok(),
        dir_node.lists(o, s),
        dir_node.created(o, o, m, f, name, sfn, es, attr, clus),
        is_group(es),
        text::lower(dir::slot_name(file_of(es))) == text::lower(name),
        32 * es.len() <= o.bpb.byts_per_clus,
        no_end(o.chain_bytes(s), o.place_index(s, es.len() as int)),
        pending_at(o.chain_bytes(s), o.place_index(s, es.len() as int)).len() == 0,
    ensures
        exists|t: Seq<u32>| #[trigger]
            f.is_file_chain(dir_node.first_clus as int, t) && {
                let n = names::first_named(f.listing(t), name, 0);
                n is Some && f.listing(t)[n->0] == file_of(es)
            },
{
    let first = dir_node.first_clus;
    let b = o.chain_bytes(s);
    let at = o.place_index(s, es.len() as int);
    law_added_file_is_listed(o, m, first, s, es);
    let head = files_before(b, at);
    let n = head.len() as int;
    let t = choose|t: Seq<u32>| #[trigger]
        m.is_file_chain(first as int, t) && lists_behind(m.chain_bytes(t), b, at, es);
    assert(f.chain_bytes(t) =~= m.chain_bytes(t));
    assert forall|k: int| 0 <= k < t.len() implies f.entry(#[trigger] t[k] as int) == m.entry(
        t[k] as int,
    ) by {
        reveal(Fat32SuperBlock::entry);
    }
    assert(f.is_file_chain(first as int, t)) by {
        reveal(Fat32SuperBlock::entry);
    }
    let files = f.listing(t);
    lemma_place_bound(o, s, es.len() as int);
    lemma_parse_reaches(b, at);
    lemma_parse_split(b, at, pending_at(b, at), head);
    assert forall|k: int| 0 <= k < n implies text::lower(dir::slot_name(#[trigger] files[k]))
        != text::lower(name) by {
        assert(files.take(n)[k] == head[k]);
        assert(o.listing(s)[k] == head[k]);
        lemma_none_named(o.listing(s), name, 0, k);
    }
    lemma_first_named(files, name, n, 0);
}

/// Entries are put within the directory, or right behind it.
proof fn lemma_place_bound<D: BlockDevice>(o: Fat32SuperBlock<D>, s: Seq<u32>, need: int)
    requires
        o.bpb.wf(),
        0 <= need,
    ensures
        0 <= o.place_index(s, need),
        32 * o.place_index(s, need) <= o.chain_bytes(s).len(),
{
    let n = o.entries_per_cluster();
    let total = s.len() * n;
    assert(s.len() * o.bpb.byts_per_clus == 32 * total) by (nonlinear_arith)
        requires
            o.bpb.byts_per_clus == 32 * n,
            total == s.len() * n,
    ;
    assert(0 <= total) by (nonlinear_arith)
        requires
            total == s.len() * n,
            0 <= n,
    ;
    if let Some((k, i)) = o.place(s, 0, need) {
        o.lemma_place(s, 0, need);
        assert(0 <= k * n && k * n + n <= total) by (nonlinear_arith)
            requires
                0 <= k,
                k + 1 <= s.len(),
                0 <= n,
                total == s.len() * n,
        ;
    }
}

/// A text whose encoding has no byte above 127 is one of ASCII.
proof fn lemma_ascii(name: Seq<char>)
    requires
        forall|i: int|
            0 <= i < vstd::utf8::encode_utf8(name).len() ==> (#[trigger] vstd::utf8::encode_utf8(
                name,
            )[i]) <= 127,
    ensures
        vstd::utf8::is_ascii_chars(name),
    decreases name.len(),
{
    if name.len() > 0 {
        let c = name[0] as u32;
        let rest = name.drop_first();
        let head = vstd::utf8::encode_scalar(c);
        let b = vstd::utf8::encode_utf8(name);
        let tail = vstd::utf8::encode_utf8(rest);
        assert(b == head + tail);
        assert(b[0] == head[0]);
        assert(c <= 127) by {
            assert(vstd::utf8::leading_byte_width_2(c) > 127 && vstd::utf8::leading_byte_width_3(c)
                > 127 && vstd::utf8::leading_byte_width_4(c) > 127) by (bit_vector);
        }
        assert forall|i: int| 0 <= i < tail.len() implies (#[trigger] tail[i]) <= 127 by {
            assert(b[head.len() + i] == tail[i]);
        }
        lemma_ascii(rest);
        assert forall|i: int| 0 <= i < name.len() implies '\0' <= #[trigger] name[i] <= '\u{7f}' by {
            if i > 0 {
                assert(name[i] == rest[i - 1]);
            } else {
                lemma_char_number(name[0]);
            }
        }
    }
}

/// A character's number has 32 bits.
proof fn lemma_char_number(c: char)
    ensures
        (c as u32) as int == c as int,
        0 <= c as int,
{
}

/// What stands before padding.
proof fn lemma_trimmed(u: Seq<u8>, n: int)
    requires
        0 <= n <= u.len(),
        forall|i: int| 0 <= i < n ==> #[trigger] u[i] != 32,
        forall|i: int| n <= i < u.len() ==> #[trigger] u[i] == 32,
    ensures
        dirent::trimmed_len(u) == n,
    decreases u.len(),
{
    if n < u.len() {
        lemma_trimmed(u.drop_last(), n);
    }
}

proof fn lemma_word(u: Seq<u8>, n: int)
    requires
        0 <= n <= u.len(),
        forall|i: int| 0 <= i < n ==> #[trigger] u[i] != 32,
        n < u.len() ==> u[n] == 32,
    ensures
        dirent::word_len(u) == n,
    decreases u.len(),
{
    if n > 0 {
        assert forall|i: int| 0 <= i < n - 1 implies #[trigger] u.skip(1)[i] != 32 by {
            assert(u.skip(1)[i] == u[i + 1]);
        }
        lemma_word(u.skip(1), n - 1);
    }
}

proof fn lemma_last_dot(b: Seq<u8>, n: int)
    requires
        0 <= n <= b.len(),
    ensures
        -1 <= dirent::last_dot(b, n) < n || (n == 0 && dirent::last_dot(b, n) == -1),
        dirent::last_dot(b, n) >= 0 ==> b[dirent::last_dot(b, n)] == 46,
    decreases n,
{
    if n > 0 && b[n - 1] != 46 {
        lemma_last_dot(b, n - 1);
    }
}

/// A name that fits a short one is spelled by it, whatever the letter case, unless it ends in
/// a dot. No number was added to tell it from others.
pub proof fn law_short_name_is_spelled(name: Seq<char>, sfn: Seq<u8>)
    requires
        !dirent::is_long_name(name, vstd::utf8::encode_utf8(name)),
        name != "."@,
        name != ".."@,
        name.len() > 0,
        name.last() != '.',
        sfn == dirent::sfn_candidate(vstd::utf8::encode_utf8(name), 0),
    ensures
        text::lower(dirent::sfn_text(sfn)) == text::lower(name),
{
    let b = vstd::utf8::encode_utf8(name);
    assert forall|i: int| 0 <= i < b.len() implies (#[trigger] b[i]) <= 127 && b[i] != 32 by {
        assert(!dirent::needs_long(b[i]));
    }
    lemma_ascii(name);
    vstd::utf8::is_ascii_chars_encode_utf8(name);
    let len = b.len() as int;
    let d = dirent::last_dot(b, len);
    lemma_last_dot(b, len);
    let stem = dirent::stem_of(b);
    let ext = dirent::ext_of(b);
    let front = sfn.subrange(0, 8);
    let back = sfn.subrange(8, 11);
    lemma_trimmed(front, stem.len() as int);
    lemma_word(back, ext.len() as int);
    assert(b[len - 1] != 46) by {
        assert(name.last() as u8 == b[len - 1]);
        if b[len - 1] == 46 {
            assert(name.last() as int == 46);
        }
    }
    let x = text::lower(dirent::sfn_text(sfn));
    let y = text::lower(name);
    assert(x.len() == y.len());
    assert forall|i: int| 0 <= i < x.len() implies x[i] == y[i] by {
        assert(name[i] as u8 == b[i]);
        if i < stem.len() {
            assert(dirent::sfn_text(sfn)[i] == text::lower_of_byte(text::upper_byte(stem[i])));
        } else if i == stem.len() {
            assert(dirent::sfn_text(sfn)[i] == '.');
        } else {
            let j = i - stem.len() - 1;
            assert(ext[j] == b[i]);
            assert(dirent::sfn_text(sfn)[i] == text::lower_of_byte(text::upper_byte(ext[j])));
        }
    }
    assert(x =~= y);
}

} // verus!
