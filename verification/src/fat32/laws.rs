//! What holds of several operations together.

use vstd::prelude::*;

use crate::blockdriver::traits::BlockDevice;
use crate::fat32::allocator;
use crate::fat32::file_write;
use crate::fat32::grow;
use crate::fat32::inode;
use crate::fat32::inode::Fat32Inode;
use crate::fat32::superblock::{Fat32SuperBlock, EOC_MARKER};
use crate::fat32::truncate;

verus! {

impl Fat32Inode {
    /// The file, whose clusters are `t`, can be read, and holds `data` from `offset` on.
    pub open spec fn holds<D: BlockDevice>(
        self,
        sb: Fat32SuperBlock<D>,
        t: Seq<u32>,
        offset: int,
        data: Seq<u8>,
    ) -> bool {
        &&& sb.sound()
        &&& sb.is_file_chain(self.first_clus as int, t)
        &&& sb.chain_fresh(self.first_clus)
        &&& 0 <= offset
        &&& offset + data.len() <= self.size
        &&& offset + data.len() <= t.len() * sb.bpb.byts_per_clus
        &&& sb.chain_range(t, offset, data.len() as int) == data
    }
}

/// A read gives back what a write wrote: once `data` was written from `offset` on, the file
/// can be read, it reaches to the end of the data, and what it holds there is the data.
pub proof fn law_read_after_write<D: BlockDevice>(
    before: Fat32Inode,
    after: Fat32Inode,
    o: Fat32SuperBlock<D>,
    f: Fat32SuperBlock<D>,
    s: Seq<u32>,
    t: Seq<u32>,
    p: Seq<u32>,
    offset: int,
    data: Seq<u8>,
)
    requires
        o.inv(),
        0 <= offset,
        data.len() > 0,
        after.written(before, o, f, s, t, p, offset, data),
    ensures
        after.holds(f, t, offset, data),
{
    let cs = o.bpb.byts_per_clus as int;
    if after.first_clus == 0 {
        assert(t.len() * cs == 0) by (nonlinear_arith)
            requires
                t.len() == 0,
        ;
    }
    let got = f.chain_range(t, offset, data.len() as int);
    assert forall|i: int| 0 <= i < data.len() implies #[trigger] got[i] == data[i] by {
        let q = offset + i;
        assert(f.chain_byte(t, q) == o.written_byte(
            s.len() as int,
            t,
            before.size as int,
            offset,
            data,
            q,
        ));
    }
    assert(got =~= data);
}

/// What a file holds is what a read of it asks for, finds and gives.
pub proof fn law_held_is_read<D: BlockDevice>(
    n: Fat32Inode,
    sb: Fat32SuperBlock<D>,
    t: Seq<u32>,
    offset: int,
    data: Seq<u8>,
)
    requires
        n.holds(sb, t, offset, data),
        data.len() > 0,
    ensures
        offset < n.size,
        n.wanted(offset, data.len() as int) == data.len(),
        sb.chain_avail(t, offset, data.len() as int) == data.len(),
        sb.chain_range(t, offset, data.len() as int) == data,
{
}

/// Where the chain of a file leads where it led and holds what it held, so does the file.
proof fn lemma_still_holds<D: BlockDevice>(
    n: Fat32Inode,
    o: Fat32SuperBlock<D>,
    f: Fat32SuperBlock<D>,
    t: Seq<u32>,
    offset: int,
    data: Seq<u8>,
)
    requires
        n.holds(o, t, offset, data),
        f.sound(),
        f.bpb == o.bpb,
        forall|k: int| #![trigger t[k]]
            0 <= k < t.len() ==> f.entry(t[k] as int) == o.entry(t[k] as int) && f.data(t[k] as int)
                == o.data(t[k] as int),
        f.chains().contains_key(n.first_clus) ==> (o.chains().contains_key(n.first_clus)
            && f.chains()[n.first_clus] == o.chains()[n.first_clus])
            || f.chains()[n.first_clus] == t,
    ensures
        n.holds(f, t, offset, data),
{
    let first = n.first_clus as int;
    grow::lemma_chain_kept(o, f, first, t);
    if f.chains().contains_key(n.first_clus) && f.chains()[n.first_clus] != t {
        o.lemma_chain_unique(first, o.chains()[n.first_clus], t);
    }
    file_write::lemma_bytes_same(o, f, t);
    let (a, b) = (
        f.chain_range(t, offset, data.len() as int),
        o.chain_range(t, offset, data.len() as int),
    );
    assert forall|i: int| 0 <= i < data.len() implies #[trigger] a[i] == b[i] by {
        assert(f.chain_byte(t, offset + i) == o.chain_byte(t, offset + i));
    }
    assert(a =~= b);
}

/// A read of any file, `m`, leaves what a file holds; so does what only looks at the volume.
pub proof fn law_reads_keep_what_files_hold<D: BlockDevice>(
    n: Fat32Inode,
    m: Fat32Inode,
    o: Fat32SuperBlock<D>,
    f: Fat32SuperBlock<D>,
    t: Seq<u32>,
    offset: int,
    data: Seq<u8>,
)
    requires
        n.holds(o, t, offset, data),
        f.quiet_but_chains(o),
        f.chains_but(o, m.first_clus),
        forall|c: u32|
            o.has_chain(m.first_clus as int) && o.chain_fresh(m.first_clus)
                && #[trigger] o.chain_fresh(c) ==> f.chain_fresh(c),
    ensures
        n.holds(f, t, offset, data),
{
    let first = n.first_clus;
    file_write::lemma_chain_same(o, f, first as int, t);
    assert forall|k: int| #![trigger t[k]] 0 <= k < t.len() implies f.entry(t[k] as int) == o.entry(
        t[k] as int,
    ) && f.data(t[k] as int) == o.data(t[k] as int) by {
        assert(o.has_entry(t[k] as int));
        f.lemma_data_same(o, t[k] as int);
    }
    if f.chains().contains_key(first) {
        if first == m.first_clus {
            assert(o.chain_fresh(first));
            assert(f.chain_fresh(first));
            f.lemma_chain_unique(first as int, f.chains()[first], t);
        } else {
            assert(f.chains().remove(m.first_clus).contains_key(first));
            assert(o.chains().remove(m.first_clus).contains_key(first));
            assert(f.chains().remove(m.first_clus)[first] == f.chains()[first]);
            assert(o.chains().remove(m.first_clus)[first] == o.chains()[first]);
        }
    }
    lemma_still_holds(n, o, f, t, offset, data);
}

/// No cluster of a chain that is apart from another is one of its clusters.
proof fn lemma_not_among(t: Seq<u32>, s: Seq<u32>)
    requires
        inode::disjoint(t, s),
    ensures
        forall|k: int| #![trigger t[k]]
            0 <= k < t.len() ==> !allocator::among(s, s.len() as int, t[k] as int),
{
    assert forall|k: int| #![trigger t[k]] 0 <= k < t.len() implies !allocator::among(
        s,
        s.len() as int,
        t[k] as int,
    ) by {
        if allocator::among(s, s.len() as int, t[k] as int) {
            let j = choose|j: int| 0 <= j < s.len() && #[trigger] s[j] == t[k] as int;
            assert(t[k] != s[j]);
        }
    }
}

/// What is done to other clusters leaves the chain of a file.
proof fn lemma_others_hold<D: BlockDevice>(
    n: Fat32Inode,
    o: Fat32SuperBlock<D>,
    f: Fat32SuperBlock<D>,
    t: Seq<u32>,
    offset: int,
    data: Seq<u8>,
    s: Seq<u32>,
    p: Seq<u32>,
    first: u32,
)
    requires
        n.holds(o, t, offset, data),
        f.sound(),
        f.bpb == o.bpb,
        f.others_kept(o, s, p),
        inode::disjoint(t, s),
        inode::disjoint(t, p),
        f.chains_but(o, first),
        first != n.first_clus,
    ensures
        n.holds(f, t, offset, data),
{
    lemma_not_among(t, s);
    lemma_not_among(t, p);
    assert forall|k: int| #![trigger t[k]] 0 <= k < t.len() implies f.entry(t[k] as int) == o.entry(
        t[k] as int,
    ) && f.data(t[k] as int) == o.data(t[k] as int) by {
        grow::lemma_chain_taken(o, n.first_clus as int, t, k);
        assert(o.is_cluster(t[k] as int));
    }
    let c = n.first_clus;
    if f.chains().contains_key(c) {
        assert(f.chains().remove(first).contains_key(c));
        assert(o.chains().remove(first).contains_key(c));
        assert(f.chains().remove(first)[c] == f.chains()[c]);
        assert(o.chains().remove(first)[c] == o.chains()[c]);
    }
    lemma_still_holds(n, o, f, t, offset, data);
}

/// A write to another file leaves what a file holds, where the two share no cluster and the
/// file is not the other's directory.
pub proof fn law_writes_keep_what_other_files_hold<D: BlockDevice>(
    n: Fat32Inode,
    t: Seq<u32>,
    offset: int,
    data: Seq<u8>,
    before: Fat32Inode,
    after: Fat32Inode,
    o: Fat32SuperBlock<D>,
    f: Fat32SuperBlock<D>,
    s: Seq<u32>,
    u: Seq<u32>,
    p: Seq<u32>,
    at: int,
    other: Seq<u8>,
)
    requires
        n.holds(o, t, offset, data),
        inode::disjoint(t, s),
        inode::disjoint(t, p),
        0 <= at,
        other.len() > 0,
        after.written(before, o, f, s, u, p, at, other),
    ensures
        n.holds(f, t, offset, data),
{
    let cs = o.bpb.byts_per_clus as int;
    if u.len() == 0 {
        assert(u.len() * cs == 0) by (nonlinear_arith)
            requires
                u.len() == 0,
        ;
    }
    assert(t[0] == n.first_clus);
    assert(u[0] == after.first_clus);
    if u[0] == t[0] {
        if s.len() > 0 {
            assert(u.take(s.len() as int)[0] == s[0]);
            assert(t[0] != s[0]);
        } else {
            assert(o.entry(u[0] as int) == 0);
            grow::lemma_chain_taken(o, n.first_clus as int, t, 0);
        }
    }
    f.lemma_chains_insert(o, after.first_clus, u);
    lemma_others_hold(n, o, f, t, offset, data, s, p, after.first_clus);
}

/// So does a change of another file's length.
pub proof fn law_truncation_keeps_what_other_files_hold<D: BlockDevice>(
    n: Fat32Inode,
    t: Seq<u32>,
    offset: int,
    data: Seq<u8>,
    after: Fat32Inode,
    o: Fat32SuperBlock<D>,
    f: Fat32SuperBlock<D>,
    s: Seq<u32>,
    u: Seq<u32>,
    p: Seq<u32>,
    len: int,
)
    requires
        n.holds(o, t, offset, data),
        inode::disjoint(t, s),
        inode::disjoint(t, p),
        after.truncated(o, f, s, u, p, len),
    ensures
        n.holds(f, t, offset, data),
{
    assert(t[0] == n.first_clus);
    assert(o.is_cluster(t[0] as int));
    let first = truncate::first_of(s, u);
    if first == n.first_clus {
        if s.len() > 0 {
            assert(t[0] != s[0]);
        } else {
            assert(o.entry(u[0] as int) == 0);
            grow::lemma_chain_taken(o, n.first_clus as int, t, 0);
        }
    }
    lemma_others_hold(n, o, f, t, offset, data, s, p, first);
}

/// A write to another file leaves a file in its place, so that it can be written in turn:
/// in the same directory, where it has another entry there, or in a directory whose clusters
/// are apart.
pub proof fn law_writes_keep_other_files_placed<D: BlockDevice>(
    n: Fat32Inode,
    v: Seq<u32>,
    r: Seq<u32>,
    before: Fat32Inode,
    after: Fat32Inode,
    o: Fat32SuperBlock<D>,
    f: Fat32SuperBlock<D>,
    s: Seq<u32>,
    t: Seq<u32>,
    p: Seq<u32>,
    offset: int,
    data: Seq<u8>,
)
    requires
        n.placed(o, v, r),
        before.placed(o, s, p),
        !before.is_unlinked(o),
        after.same_file(before),
        inode::disjoint(v, s),
        inode::disjoint(v, p),
        (r == p && n.parent_clus == before.parent_clus && o.locate(r, 0, n.entry_name@)
            != o.locate(p, 0, before.entry_name@)) || (inode::disjoint(r, s) && inode::disjoint(
            r,
            p,
        )),
        0 <= offset,
        data.len() > 0,
        after.written(before, o, f, s, t, p, offset, data),
    ensures
        n.placed(f, v, r),
{
    let cs = o.bpb.byts_per_clus as int;
    if t.len() == 0 {
        assert(t.len() * cs == 0) by (nonlinear_arith)
            requires
                t.len() == 0,
        ;
    }
    assert(t[0] == after.first_clus);
    f.lemma_chains_insert(o, after.first_clus, t);
    if n.first_clus != 0 {
        lemma_other_chain(o, f, n.first_clus as int, v, s, p);
        assert(v[0] == n.first_clus);
        if t[0] == v[0] {
            if s.len() > 0 {
                assert(t.take(s.len() as int)[0] == s[0]);
                assert(v[0] != s[0]);
            } else {
                assert(o.entry(t[0] as int) == 0);
                grow::lemma_chain_taken(o, n.first_clus as int, v, 0);
            }
        }
        if f.chains().contains_key(n.first_clus) {
            o.lemma_chain_unique(n.first_clus as int, o.chains()[n.first_clus], v);
        }
    }
    if !n.is_unlinked(o) {
        let name = before.entry_name@;
        let first = if s.len() == 0 {
            Some(after.first_clus)
        } else {
            None
        };
        let size = if s.len() == 0 || before.size < offset + data.len() {
            Some(after.size)
        } else {
            None
        };
        if r == p && n.parent_clus == before.parent_clus {
            f.lemma_told_beside(o, p, name, first, size, n.entry_name@);
        } else {
            lemma_other_chain(o, f, n.parent_clus as int, r, s, p);
            f.lemma_locate_same(o, r, 0, n.entry_name@);
            if o.locate(r, 0, n.entry_name@) is Some {
                o.lemma_located(r, 0, n.entry_name@);
            }
        }
    }
}

/// A chain that is apart from what was changed leads where it led and holds what it held.
proof fn lemma_other_chain<D: BlockDevice>(
    o: Fat32SuperBlock<D>,
    f: Fat32SuperBlock<D>,
    first: int,
    v: Seq<u32>,
    s: Seq<u32>,
    p: Seq<u32>,
)
    requires
        o.is_file_chain(first, v),
        f.bpb == o.bpb,
        f.others_kept(o, s, p),
        inode::disjoint(v, s),
        inode::disjoint(v, p),
    ensures
        f.is_file_chain(first, v),
        forall|j: int| 0 <= j < v.len() ==> f.data(#[trigger] v[j] as int) == o.data(v[j] as int),
{
    lemma_not_among(v, s);
    lemma_not_among(v, p);
    assert forall|k: int| 0 <= k < v.len() implies f.entry(#[trigger] v[k] as int) == o.entry(
        v[k] as int,
    ) && f.data(v[k] as int) == o.data(v[k] as int) by {
        grow::lemma_chain_taken(o, first, v, k);
        assert(o.is_cluster(v[k] as int));
    }
    grow::lemma_chain_kept(o, f, first, v);
}

/// A write leaves the other bytes of the file as they were.
pub proof fn law_write_keeps_the_rest<D: BlockDevice>(
    before: Fat32Inode,
    after: Fat32Inode,
    o: Fat32SuperBlock<D>,
    f: Fat32SuperBlock<D>,
    s: Seq<u32>,
    t: Seq<u32>,
    p: Seq<u32>,
    offset: int,
    data: Seq<u8>,
    q: int,
)
    requires
        o.inv(),
        0 <= offset,
        after.written(before, o, f, s, t, p, offset, data),
        0 <= q < before.size,
        q < s.len() * o.bpb.byts_per_clus,
        q < offset || offset + data.len() <= q,
    ensures
        f.chain_byte(t, q) == o.chain_byte(s, q),
{
    let cs = o.bpb.byts_per_clus as int;
    o.lemma_chain_pos(s, q);
    assert(s.len() * cs <= t.len() * cs) by (nonlinear_arith)
        requires
            s.len() <= t.len(),
            cs >= 0,
    ;
    let k = q / cs;
    assert(t.take(s.len() as int)[k] == t[k]);
    assert(f.chain_byte(t, q) == o.written_byte(
        s.len() as int,
        t,
        before.size as int,
        offset,
        data,
        q,
    ));
}

/// Once a file has grown, its directory states its first cluster and its size, unless its
/// name is gone.
pub proof fn law_directory_states_what_has_grown<D: BlockDevice>(
    before: Fat32Inode,
    after: Fat32Inode,
    o: Fat32SuperBlock<D>,
    f: Fat32SuperBlock<D>,
    s: Seq<u32>,
    t: Seq<u32>,
    p: Seq<u32>,
    offset: int,
    data: Seq<u8>,
)
    requires
        before.placed(o, s, p),
        !before.is_unlinked(o),
        after.same_file(before),
        before.first_clus != 0 ==> after.first_clus == before.first_clus,
        before.size < offset + data.len(),
        after.written(before, o, f, s, t, p, offset, data),
    ensures
        f.stated(p, after.entry_name@) == Some((after.first_clus as int, after.size as int)),
{
    let first = if s.len() == 0 {
        Some(after.first_clus)
    } else {
        None
    };
    f.lemma_told_is_stated(o, p, before.entry_name@, first, Some(after.size));
}

/// Freeing a cluster that was just allocated leaves the table, the bitmap's verdict on each
/// cluster, and the count of free clusters as they were.
pub proof fn law_free_undoes_allocate<D: BlockDevice>(
    o: Fat32SuperBlock<D>,
    a: Fat32SuperBlock<D>,
    f: Fat32SuperBlock<D>,
    c: u32,
)
    requires
        o.tracked_ok(),
        o.bpb.total_clus > 0,
        a.allocated(o, seq![c]),
        o.is_choice(1, seq![c]),
        f.bpb == a.bpb,
        f.freed(a, seq![c], 1),
    ensures
        a.is_walk(c as int, seq![c]),
        f.same_table(o),
        f.tracked_ok(),
        f.free_clus_count == o.free_clus_count,
{
    let v = seq![c];
    a.lemma_allocated(o, v);
    assert(v[0] == c);
    assert(o.is_cluster(c as int) && o.entry(c as int) == 0);
    assert(allocator::among(v, 1, c as int));
    assert(a.has_entry(c as int));
    assert(a.entry(c as int) == EOC_MARKER);
    assert(v.last() == c);
    assert forall|x: int| o.has_entry(x) implies #[trigger] f.entry(x) == o.entry(x) by {
        assert(a.has_entry(x));
        if allocator::among(v, 1, x) {
            let k = choose|k: int| 0 <= k < 1 && #[trigger] v[k] == x;
            assert(x == c);
        }
    }
    crate::fat32::steps::lemma_freed_tracked(a, f, v);
}

/// A file that is given another length keeps its bytes up to there; what it gets of new
/// clusters is zero.
pub proof fn law_truncation_keeps_the_beginning<D: BlockDevice>(
    after: Fat32Inode,
    o: Fat32SuperBlock<D>,
    f: Fat32SuperBlock<D>,
    s: Seq<u32>,
    t: Seq<u32>,
    p: Seq<u32>,
    len: int,
    q: int,
)
    requires
        o.inv(),
        f.bpb == o.bpb,
        after.truncated(o, f, s, t, p, len),
        0 <= q < len,
        len <= t.len() * o.bpb.byts_per_clus,
    ensures
        q < s.len() * o.bpb.byts_per_clus ==> f.chain_byte(t, q) == o.chain_byte(s, q),
        q >= s.len() * o.bpb.byts_per_clus ==> f.chain_byte(t, q) == 0,
{
    let cs = o.bpb.byts_per_clus as int;
    assert(cs > 0);
    let k = q / cs;
    vstd::arithmetic::div_mod::lemma_fundamental_div_mod(q, cs);
    assert(0 <= k < t.len()) by (nonlinear_arith)
        requires
            q == cs * k + q % cs,
            0 <= q % cs < cs,
            0 <= q < t.len() * cs,
            cs > 0,
    ;
    if q < s.len() * cs {
        assert(k < s.len()) by (nonlinear_arith)
            requires
                q == cs * k + q % cs,
                0 <= q % cs,
                q < s.len() * cs,
                cs > 0,
        ;
        if t.len() <= s.len() {
            assert(s.take(t.len() as int)[k] == s[k]);
        } else {
            assert(t.take(s.len() as int)[k] == t[k]);
        }
        assert(t[k] == s[k]);
    } else {
        assert(k >= s.len()) by (nonlinear_arith)
            requires
                q == cs * k + q % cs,
                q % cs < cs,
                q >= s.len() * cs,
                cs > 0,
        ;
        assert(f.data(t[k] as int) == grow::zeros(cs));
    }
}

/// A byte of a file is the byte of the device in the cluster that the chain gives for it.
/// Clusters are counted from 2 on, and the first begins with the first data sector.
pub proof fn law_byte_of_a_file<D: BlockDevice>(sb: Fat32SuperBlock<D>, s: Seq<u32>, q: int)
    requires
        sb.bpb.wf(),
        0 <= q < s.len() * (512 * sb.bpb.sec_per_clus),
        s[q / (512 * sb.bpb.sec_per_clus)] >= 2,
    ensures
        ({
            let cs = 512 * sb.bpb.sec_per_clus;
            sb.chain_byte(s, q) == (sb.device.disk())(
                sb.bpb.first_data_sec * 512 + (s[q / cs] - 2) * cs + q % cs,
            )
        }),
{
    let cs = 512 * sb.bpb.sec_per_clus;
    let c = s[q / cs] as int;
    let n = sb.bpb.sec_per_clus as int;
    assert((sb.bpb.first_data_sec + (c - 2) * n) * 512 == sb.bpb.first_data_sec * 512 + (c - 2)
        * (512 * n)) by (nonlinear_arith);
    assert(sb.data(c)[q % cs] == (sb.device.disk())(sb.bpb.lba_of(c) * 512 + q % cs));
}

/// What a read asks for of a file ends with the file.
pub proof fn law_read_ends_with_the_file(n: Fat32Inode, offset: int, len: int)
    requires
        0 <= offset <= n.size,
        0 <= len,
    ensures
        offset + n.wanted(offset, len) <= n.size,
        n.wanted(offset, len) <= len,
        n.wanted(offset, len) == len || offset + n.wanted(offset, len) == n.size,
{
}

} // verus!
