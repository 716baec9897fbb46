//! What a directory of a FAT32 volume holds, stated of its 32-byte entries.

use vstd::prelude::*;

use crate::blockdriver::traits::BlockDevice;
use crate::bytes;
use crate::fat32::create;
use crate::fat32::dir;
use crate::fat32::dir::{Scan, SlotView};
use crate::fat32::dir_write;
use crate::fat32::dirent;
use crate::fat32::dirops;
use crate::fat32::format_laws;
use crate::fat32::grow;
use crate::fat32::io;
use crate::fat32::mount;
use crate::fat32::names;
use crate::fat32::superblock::Fat32SuperBlock;
use crate::layout;
use crate::layout::holds_low_first;
use crate::text;
use crate::vfs::FileType;

verus! {

/// Entry `i` of a directory.
pub open spec fn entry(b: Seq<u8>, i: int) -> Seq<u8> {
    Seq::new(32, |j: int| b[32 * i + j])
}

/// Entry `i` is part of a long name.
pub open spec fn is_long(b: Seq<u8>, i: int) -> bool {
    b[32 * i] != 0 && b[32 * i] != 0xE5 && b[32 * i + 11] == 0x0F
}

/// Entry `i` is the short one of a file or a directory.
pub open spec fn is_short(b: Seq<u8>, i: int) -> bool {
    b[32 * i] != 0 && b[32 * i] != 0xE5 && b[32 * i + 11] != 0x0F && b[32 * i + 11] as int / 8 % 2
        == 0
}

/// Files stand one behind the other, file `k` in the entries from `at[k]` up to `at[k + 1]`:
/// the parts of its long name, if it has one, and its short entry.
pub open spec fn stands(b: Seq<u8>, at: Seq<int>) -> bool {
    &&& at.len() > 0
    &&& 0 <= at[0]
    &&& 32 * at.last() <= b.len()
    &&& forall|k: int| #![trigger at[k + 1]]
        0 <= k < at.len() - 1 ==> {
            &&& at[k] < at[k + 1] <= at.last()
            &&& is_short(b, at[k + 1] - 1)
            &&& forall|i: int| at[k] <= i < at[k + 1] - 1 ==> #[trigger] is_long(b, i)
        }
}

/// The file that stands in the entries from `from` up to `to`.
pub open spec fn file_in(b: Seq<u8>, from: int, to: int) -> SlotView {
    SlotView {
        vfat: Seq::new((to - 1 - from) as nat, |j: int| entry(b, from + j)),
        sfn: entry(b, to - 1),
    }
}

proof fn lemma_entry(b: Seq<u8>, i: int)
    requires
        0 <= i,
        32 * i + 32 <= b.len(),
    ensures
        dir::entry_at(b, i) == entry(b, i),
        entry(b, i)[0] == b[32 * i],
        entry(b, i)[11] == b[32 * i + 11],
{
    assert(dir::entry_at(b, i) =~= entry(b, i));
}

/// The parts of a long name are gathered.
proof fn lemma_long_parts(
    b: Seq<u8>,
    i: int,
    end: int,
    pending: Seq<Seq<u8>>,
    out: Seq<SlotView>,
)
    requires
        0 <= i <= end,
        32 * end <= b.len(),
        forall|j: int| i <= j < end ==> #[trigger] is_long(b, j),
    ensures
        dir::parse_from(b, i, pending, out) == dir::parse_from(
            b,
            end,
            pending + Seq::new((end - i) as nat, |j: int| entry(b, i + j)),
            out,
        ),
    decreases end - i,
{
    let all = Seq::new((end - i) as nat, |j: int| entry(b, i + j));
    if i == end {
        assert(pending + all =~= pending);
    } else {
        lemma_entry(b, i);
        assert(is_long(b, i));
        let rest = Seq::new((end - (i + 1)) as nat, |j: int| entry(b, i + 1 + j));
        lemma_long_parts(b, i + 1, end, pending.push(entry(b, i)), out);
        assert(pending.push(entry(b, i)) + rest =~= pending + all);
    }
}

/// A directory lists the files that stand in it, in order, up to its end: the end mark, or the
/// end of its bytes.
pub proof fn law_files_are_listed(b: Seq<u8>, at: Seq<int>, k: int, out: Seq<SlotView>)
    requires
        stands(b, at),
        0 <= k < at.len(),
        32 * at.last() + 32 <= b.len() ==> b[32 * at.last()] == 0,
    ensures
        dir::parse_from(b, at[k], Seq::empty(), out) == out + Seq::new(
            (at.len() - 1 - k) as nat,
            |i: int| file_in(b, at[k + i], at[k + i + 1]),
        ),
    decreases at.len() - k,
{
    let files = Seq::new(
        (at.len() - 1 - k) as nat,
        |i: int| file_in(b, at[k + i], at[k + i + 1]),
    );
    lemma_places(b, at, k);
    if k == at.len() - 1 {
        if 32 * at.last() + 32 <= b.len() {
            lemma_entry(b, at.last());
        }
        assert(out + files =~= out);
    } else {
        let (from, to) = (at[k], at[k + 1]);
        lemma_places(b, at, k + 1);
        lemma_long_parts(b, from, to - 1, Seq::empty(), out);
        lemma_entry(b, to - 1);
        assert(is_short(b, to - 1));
        let f = file_in(b, from, to);
        assert(Seq::<Seq<u8>>::empty() + f.vfat =~= f.vfat);
        law_files_are_listed(b, at, k + 1, out.push(f));
        let rest = Seq::new(
            (at.len() - 1 - (k + 1)) as nat,
            |i: int| file_in(b, at[k + 1 + i], at[k + 1 + i + 1]),
        );
        assert forall|i: int| 0 <= i < rest.len() implies #[trigger] rest[i] == files[i + 1] by {
            assert(k + 1 + i == k + (i + 1));
        }
        assert(files[0] == f);
        assert(out.push(f) + rest =~= out + files);
    }
}

proof fn lemma_places(b: Seq<u8>, at: Seq<int>, k: int)
    requires
        stands(b, at),
        0 <= k < at.len(),
    ensures
        0 <= at[k] <= at.last(),
    decreases k,
{
    if k > 0 {
        lemma_places(b, at, k - 1);
        assert(at[k - 1] < at[k - 1 + 1]);
    } else if at.len() > 1 {
        assert(at[0] < at[0int + 1]);
    }
}

/// An entry that was deleted stands for nothing, and parts of a long name before it belong to
/// nothing.
pub proof fn law_deleted_entry(
    b: Seq<u8>,
    i: int,
    pending: Seq<Seq<u8>>,
    out: Seq<SlotView>,
)
    requires
        0 <= i,
        32 * i + 32 <= b.len(),
        b[32 * i] == 0xE5,
    ensures
        dir::parse_from(b, i, pending, out) == dir::parse_from(b, i + 1, Seq::empty(), out),
{
    lemma_entry(b, i);
}

/// An entry is that of a directory where bit 4 of its attributes is set, and of a volume label
/// where bit 3 is.
pub proof fn law_attributes(attr: u8)
    ensures
        dir::is_directory(attr) <==> attr & 0x10u8 != 0,
        dir::is_label(attr) <==> attr & 0x08u8 != 0,
        dirops::type_of(attr) == (if attr & 0x10u8 != 0 {
            FileType::Directory
        } else {
            FileType::Regular
        }),
{
    assert((attr & 0x10u8 != 0) == (attr / 16 % 2 == 1) && (attr & 0x08u8 != 0) == (attr / 8 % 2
        == 1)) by (bit_vector);
}

/// A search for a name goes on behind entry `j`: it is no end mark, and not of a file of that
/// name.
pub open spec fn is_passed(b: Seq<u8>, j: int, name: Seq<char>) -> bool {
    b[32 * j] != 0 && !(is_short(b, j) && text::lower(dir::local_name(b, j)) == text::lower(name))
}

/// A name is looked for from entry to entry: what is found is the first file of that name,
/// whatever the case of its letters, before the end mark.
pub proof fn law_name_is_found(b: Seq<u8>, i: int, k: int, name: Seq<char>)
    requires
        0 <= i <= k,
        32 * k + 32 <= b.len(),
        is_short(b, k),
        text::lower(dir::local_name(b, k)) == text::lower(name),
        forall|j: int| i <= j < k ==> #[trigger] is_passed(b, j, name),
    ensures
        dir::scan(b, i, name) == Scan::Found(k),
    decreases k - i,
{
    lemma_entry(b, i);
    if i < k {
        assert(is_passed(b, i, name));
        law_name_is_found(b, i + 1, k, name);
    }
}

/// Nothing is found behind an end mark.
pub proof fn law_end_mark(b: Seq<u8>, i: int, k: int, name: Seq<char>)
    requires
        0 <= i <= k,
        32 * k + 32 <= b.len(),
        b[32 * k] == 0,
    ensures
        !(dir::scan(b, i, name) is Absent),
        dir::scan(b, i, name) matches Scan::Found(j) ==> i <= j < k,
    decreases k - i,
{
    lemma_entry(b, i);
    if i < k && !(dir::scan(b, i, name) is Ended) {
        law_end_mark(b, i + 1, k, name);
    }
}

/// The entries that are deleted with a file are marked, and nothing else changes.
pub proof fn law_marked_as_deleted(b: Seq<u8>, from: int, to: int, i: int, j: int)
    requires
        0 <= from <= to,
        0 <= i,
        0 <= j < 32,
        32 * i + 32 <= b.len(),
    ensures
        dir::with_deleted(b, from, to).len() == b.len(),
        dir::with_deleted(b, from, to)[32 * i + j] == (if j == 0 && from <= i && i <= to {
            0xE5u8
        } else {
            b[32 * i + j]
        }),
{
    assert((32 * i + j) / 32 == i && (32 * i + j) % 32 == j);
}

/// An entry is free where it was deleted, or at or behind the end mark.
pub open spec fn is_free(b: Seq<u8>, from: int, i: int) -> bool {
    b[32 * i] == 0xE5 || exists|m: int| from <= m <= i && #[trigger] b[32 * m] == 0
}

/// The room that is found for entries is free, and lies in the directory.
pub proof fn law_room_is_free(b: Seq<u8>, i: int, need: int, k: int, j: int)
    requires
        0 <= i,
        0 < need,
        dir_write::find_room(b, i, need) == Some(k),
        k <= j < k + need,
    ensures
        i <= k,
        32 * (k + need) <= b.len(),
        is_free(b, k, j),
    decreases b.len() - 32 * i,
{
    let n = b.len() as int / 32;
    if dir_write::is_vacant(b, i) && dir_write::room_at(b, i, n) >= need {
        if b[32 * i] == 0xE5 {
            lemma_vacant(b, i, n, j);
        } else {
            assert(b[32 * k] == 0);
        }
        assert(32 * n <= b.len());
    } else {
        law_room_is_free(b, i + 1, need, k, j);
    }
}

proof fn lemma_vacant(b: Seq<u8>, i: int, n: int, j: int)
    requires
        0 <= i <= j,
        i <= n,
    ensures
        dir_write::vacant_run(b, i, n) <= n - i,
        j < i + dir_write::vacant_run(b, i, n) ==> b[32 * j] == 0xE5 || b[32 * j] == 0,
    decreases n - i,
{
    if i < n && dir_write::is_vacant(b, i) {
        if i < j {
            lemma_vacant(b, i + 1, n, j);
        } else {
            lemma_vacant(b, i + 1, n, i + 1);
        }
    }
}

/// Room is found wherever enough deleted entries stand in a row, or the end mark leaves enough.
pub proof fn law_room_is_found(b: Seq<u8>, i: int, need: int, p: int)
    requires
        0 <= i <= p,
        0 < need,
        32 * (p + need) <= b.len(),
        b[32 * p] == 0 || (forall|j: int| #![trigger b[32 * j]]
            p <= j < p + need ==> b[32 * j] == 0xE5),
    ensures
        dir_write::find_room(b, i, need) matches Some(k) && k <= p,
    decreases p - i,
{
    let n = b.len() as int / 32;
    if i == p {
        if b[32 * p] != 0 {
            assert(b[32 * p] == 0xE5);
            lemma_run(b, p, n, p + need);
        }
    } else if !(dir_write::is_vacant(b, i) && dir_write::room_at(b, i, n) >= need) {
        law_room_is_found(b, i + 1, need, p);
    }
}

proof fn lemma_run(b: Seq<u8>, i: int, n: int, end: int)
    requires
        0 <= i <= end <= n,
        forall|j: int| #![trigger b[32 * j]] i <= j < end ==> b[32 * j] == 0xE5,
    ensures
        dir_write::vacant_run(b, i, n) >= end - i,
    decreases end - i,
{
    if i < end {
        assert(b[32 * i] == 0xE5);
        lemma_run(b, i + 1, n, end);
    } else if i < n && dir_write::is_vacant(b, i) {
        lemma_vacant(b, i + 1, n, i + 1);
        lemma_not_negative(b, i + 1, n);
    }
}

proof fn lemma_not_negative(b: Seq<u8>, i: int, n: int)
    ensures
        dir_write::vacant_run(b, i, n) >= 0,
    decreases n - i,
{
    if i < n && dir_write::is_vacant(b, i) {
        lemma_not_negative(b, i + 1, n);
    }
}

/// A new directory has two entries, both of directories: the first leads to itself and the
/// second to its parent; the rest of it is zero.
pub proof fn law_new_directory(b: Seq<u8>, cs: int, c: u32, parent: u32)
    requires
        create::is_new_dir(b, cs, c, parent),
        cs >= 512,
    ensures
        b.len() == cs,
        b[11] == 0x10 && b[43] == 0x10,
        dirent::entry_cluster(entry(b, 0)) == c,
        dirent::entry_cluster(entry(b, 1)) == parent,
        dirent::entry_size(entry(b, 0)) == 0,
        dirent::entry_size(entry(b, 1)) == 0,
        forall|i: int| 64 <= i < cs ==> #[trigger] b[i] == 0,
{
    let (dot, up) = choose|dot: Seq<u8>, up: Seq<u8>| #[trigger]
        names::is_short_name("."@, Set::empty(), dot) && #[trigger] names::is_short_name(
            ".."@,
            Set::empty(),
            up,
        ) && b == bytes::splice(
            bytes::splice(grow::zeros(cs), 0, names::short_entry(dot, 0x10, 0, c as int, 0)),
            32,
            names::short_entry(up, 0x10, 0, parent as int, 0),
        );
    let e = names::short_entry(dot, 0x10, 0, c as int, 0);
    let f = names::short_entry(up, 0x10, 0, parent as int, 0);
    assert(dot.len() == 11 && up.len() == 11);
    format_laws::law_short_entry(dot, 0x10, 0, c as int, 0);
    format_laws::law_short_entry(up, 0x10, 0, parent as int, 0);
    layout::lemma_first_bytes(c as int);
    layout::lemma_first_bytes(parent as int);
    layout::lemma_first_bytes(0);
    assert(e.len() == 32 && f.len() == 32);
    assert(entry(b, 0) =~= e);
    assert(entry(b, 1) =~= f);
    assert(b[11] == e[11] && b[43] == f[11]);
    lemma_cluster_of_a_short_entry(dot, c);
    lemma_cluster_of_a_short_entry(up, parent);
}

proof fn lemma_cluster_of_a_short_entry(sfn: Seq<u8>, c: u32)
    requires
        sfn.len() == 11,
    ensures
        dirent::entry_cluster(names::short_entry(sfn, 0x10, 0, c as int, 0)) == c,
        dirent::entry_size(names::short_entry(sfn, 0x10, 0, c as int, 0)) == 0,
{
    let head = Seq::new(
        32,
        |i: int|
            if i < 11 {
                sfn[i]
            } else if i == 11 {
                0x10u8
            } else {
                0u8
            },
    );
    let first = dirent::with_cluster(head, c as int);
    dirent::lemma_entry_fields(head, c as int, 0);
    dirent::lemma_entry_fields(first, c as int, 0);
    assert(names::short_entry(sfn, 0x10, 0, c as int, 0) == dirent::with_size(first, 0)) by {
        let other = Seq::new(
            32,
            |i: int|
                if i < 11 {
                    sfn[i]
                } else if i == 11 {
                    0x10u8
                } else if i == 12 {
                    0u8
                } else {
                    0u8
                },
        );
        assert(other =~= head);
    }
}

/// The cluster from which to look for a free one is taken from a volume's notes only where
/// both signatures stand there and it names a cluster of the volume.
pub proof fn law_stored_hint(s: Seq<u8>, total: int, hint: int)
    requires
        s.len() == 512,
        holds_low_first(s, 492, 4, hint),
    ensures
        mount::stored_hint(s, total) == (if s.take(4) == seq![0x52u8, 0x52, 0x61, 0x41]
            && s.subrange(484, 488) == seq![0x72u8, 0x72, 0x41, 0x61] && 2 <= hint && hint < total
            + 2 {
            Some(hint)
        } else {
            None
        }),
{
    layout::lemma_read_back(s, 492, hint);
    let (a, m) = (s.take(4), s.subrange(484, 488));
    assert(a[0] == s[0] && a[1] == s[1] && a[2] == s[2] && a[3] == s[3]);
    assert(m[0] == s[484] && m[1] == s[485] && m[2] == s[486] && m[3] == s[487]);
    if bytes::le32(s, 0) == 0x41615252 {
        assert(a =~= seq![0x52u8, 0x52, 0x61, 0x41]);
    }
    if bytes::le32(s, 484) == 0x61417272 {
        assert(m =~= seq![0x72u8, 0x72, 0x41, 0x61]);
    }
}

/// A listing shows the files that have a name, but for the directory itself and its parent, in
/// order, each with its name and its kind.
pub proof fn law_lines_show_the_files(
    files: Seq<SlotView>,
    n: int,
    parent: u32,
    inos: Map<(u32, Seq<char>), u64>,
    next: u64,
)
    requires
        0 <= n <= files.len(),
    ensures
        ({
            let shown = files.take(n).filter(
                |s: SlotView|
                    dir::slot_name(s).len() > 0 && dir::slot_name(s) != "."@ && dir::slot_name(s)
                        != ".."@,
            );
            let lines = dirops::lines_of(files, n, parent, inos, next).0;
            &&& lines.len() == shown.len()
            &&& forall|i: int|
                0 <= i < lines.len() ==> (#[trigger] lines[i]).name == dir::slot_name(shown[i])
                    && lines[i].file_type == (if shown[i].sfn[11] as int / 16 % 2 == 1 {
                    FileType::Directory
                } else {
                    FileType::Regular
                })
        }),
    decreases n,
{
    reveal(Seq::filter);
    if n > 0 {
        law_lines_show_the_files(files, n - 1, parent, inos, next);
        assert(files.take(n).drop_last() =~= files.take(n - 1));
        assert(files.take(n).last() == files[n - 1]);
    } else {
        assert(files.take(n) =~= Seq::empty());
    }
}

/// A number that a listing gives is the one that is kept under the name from there on, and one
/// that was kept before is given again.
pub proof fn law_listed_numbers_are_kept(
    files: Seq<SlotView>,
    n: int,
    parent: u32,
    inos: Map<(u32, Seq<char>), u64>,
    next: u64,
    i: int,
)
    requires
        0 <= n <= files.len(),
        0 <= i < dirops::lines_of(files, n, parent, inos, next).0.len(),
    ensures
        ({
            let (lines, map, _) = dirops::lines_of(files, n, parent, inos, next);
            let key = (parent, text::lower(lines[i].name));
            &&& map.contains_key(key)
            &&& map[key] == lines[i].ino
            &&& inos.contains_key(key) ==> lines[i].ino == inos[key]
        }),
    decreases n,
{
    lemma_numbers_stay(files, n - 1, parent, inos, next);
    let (before, map, free) = dirops::lines_of(files, n - 1, parent, inos, next);
    if i < before.len() {
        law_listed_numbers_are_kept(files, n - 1, parent, inos, next, i);
    }
}

proof fn lemma_numbers_stay(
    files: Seq<SlotView>,
    n: int,
    parent: u32,
    inos: Map<(u32, Seq<char>), u64>,
    next: u64,
)
    ensures
        forall|key: (u32, Seq<char>)| #[trigger]
            inos.contains_key(key) ==> dirops::lines_of(
                files,
                n,
                parent,
                inos,
                next,
            ).1.contains_key(key) && dirops::lines_of(files, n, parent, inos, next).1[key]
                == inos[key],
    decreases n,
{
    if n > 0 {
        lemma_numbers_stay(files, n - 1, parent, inos, next);
    }
}

/// What is written to a device stands where it was written, and nowhere else.
pub proof fn law_written_bytes(d: spec_fn(int) -> u8, pos: int, data: Seq<u8>, p: int)
    ensures
        io::disk_range(io::disk_write(d, pos, data), pos, data.len() as int) == data,
        p < pos || pos + data.len() <= p ==> io::disk_write(d, pos, data)(p) == d(p),
{
    assert(io::disk_range(io::disk_write(d, pos, data), pos, data.len() as int) =~= data);
}

/// An entry that is brought up to date has the new cluster and the new size, keeps its name
/// and its attributes, and loses its times.
pub proof fn law_entry_is_brought_up_to_date<D: BlockDevice>(e: Seq<u8>, c: u32, n: u32)
    requires
        e.len() == 32,
    ensures
        ({
            let u = Fat32SuperBlock::<D>::updated_entry(e, Some(c), Some(n));
            &&& u.len() == 32
            &&& u.take(13) == e.take(13)
            &&& dirent::entry_cluster(u) == c
            &&& dirent::entry_size(u) == n
            &&& dirent::entry_mtime(u) == 0
        }),
{
    let a = dirent::with_cluster(e, c as int);
    let b = dirent::with_size(a, n as int);
    let u = dirent::without_timestamps(b);
    dirent::lemma_entry_fields(e, c as int, n as int);
    dirent::lemma_entry_fields(a, c as int, n as int);
    format_laws::law_first_cluster(e, c as int);
    format_laws::law_file_size(a, n as int);
    assert(u.take(13) =~= e.take(13));
    assert(u[0x14] == b[0x14] && u[0x15] == b[0x15] && u[0x1A] == b[0x1A] && u[0x1B] == b[0x1B]);
    assert(u[0x1C] == b[0x1C] && u[0x1D] == b[0x1D] && u[0x1E] == b[0x1E] && u[0x1F] == b[0x1F]);
    assert(b[0x14] == a[0x14] && b[0x15] == a[0x15] && b[0x1A] == a[0x1A] && b[0x1B] == a[0x1B]);
    format_laws::law_entry_without_a_date(u);
}

} // verus!
