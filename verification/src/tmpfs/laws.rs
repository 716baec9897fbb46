//! What holds of the file system in memory as a whole.

use crate::tmpfs::volume::{BodyView, Dropping, InoCounter, NodeView, TmpfsVolume, TMPFS_BUDGET};
use crate::vfs::VfsError;
use vstd::prelude::*;

verus! {

/// After a write at `offset` to node `id`, the bytes that were written can be read from
/// there, and every other byte of a file reads as before.
pub proof fn law_read_after_write(
    before: TmpfsVolume,
    after: TmpfsVolume,
    id: u64,
    offset: int,
    buf: Seq<u8>,
    b: BodyView,
    now: u64,
)
    requires
        before.has_node(id),
        0 <= offset,
        crate::tmpfs::inode::body_written(before.node(id).body, offset, buf) == Some(b),
        before.rewritten(after, id, b, now),
    ensures
        after.has_node(id),
        crate::tmpfs::inode::body_bytes(after.node(id).body) is Some,
        crate::tmpfs::inode::part_of(
            crate::tmpfs::inode::body_bytes(after.node(id).body)->0,
            offset,
            buf.len() as int,
        ) == buf,
        before.node(id).body matches BodyView::File(v) ==> forall|i: int|
            0 <= i < v.len() && !(offset <= i < offset + buf.len())
                ==> #[trigger] crate::tmpfs::inode::body_bytes(after.node(id).body)->0[i] == v[i],
{
    let v = crate::tmpfs::inode::body_bytes(after.node(id).body)->0;
    assert(crate::tmpfs::inode::part_of(v, offset, buf.len() as int) =~= buf);
}

/// A write, or a change of length, leaves the other nodes as they are.
pub proof fn law_rewriting_keeps_the_rest(
    before: TmpfsVolume,
    after: TmpfsVolume,
    id: u64,
    other: u64,
    b: BodyView,
    now: u64,
)
    requires
        before.has_node(id),
        before.has_node(other),
        other != id,
        before.rewritten(after, id, b, now),
    ensures
        after.has_node(other),
        after.node(other) == before.node(other),
{
}

/// The contents of all nodes together stay within the budget, and they are what is
/// counted as used.
pub proof fn law_within_budget(vol: TmpfsVolume)
    requires
        vol.inv(),
    ensures
        crate::tmpfs::volume::total_len(vol@) == vol.used,
        vol.used <= TMPFS_BUDGET,
{
}

/// What is made under a name is found under it, and no other name in the directory
/// changes.
pub proof fn law_made_is_found(
    before: TmpfsVolume,
    after: TmpfsVolume,
    dir: u64,
    name: Seq<char>,
    n: NodeView,
    ids: InoCounter,
    ids_after: InoCounter,
    id: u64,
)
    requires
        before.has_node(dir),
        before@.len() <= u64::MAX,
        before.made(after, dir, name, n, ids, ids_after, Ok::<u64, VfsError>(id)),
    ensures
        after.leads(dir, name),
        after.names(dir)[name] == id,
        after.node(id).body == n.body,
        after.node(id).ino == ids.next,
        after.names(dir) == before.names(dir).insert(name, id),
{
}

/// A second name for a node refers to the same contents.
pub proof fn law_link_shares_the_node(
    before: TmpfsVolume,
    after: TmpfsVolume,
    dir: u64,
    old_name: Seq<char>,
    new_name: Seq<char>,
)
    requires
        before.has_node(dir),
        before.is_dir(dir),
        before.leads(dir, old_name),
        before.names(dir)[old_name] != dir,
        after@ == crate::tmpfs::inode::with_ref(
            crate::tmpfs::inode::with_names(
                before@,
                dir,
                before.names(dir).insert(new_name, before.names(dir)[old_name]),
            ),
            before.names(dir)[old_name],
        ),
    ensures
        after.names(dir)[new_name] == before.names(dir)[old_name],
        after.node(after.names(dir)[new_name]).body == before.node(
            before.names(dir)[old_name],
        ).body,
{
}

/// Giving up one of several references takes one off their number, and changes nothing
/// else.
pub proof fn law_others_keep_it_alive(
    nodes: Seq<Option<NodeView>>,
    id: u64,
    after: Seq<Option<NodeView>>,
)
    requires
        crate::tmpfs::volume::all_dropped(nodes, seq![id], after),
        crate::tmpfs::volume::live(nodes, id),
        crate::tmpfs::volume::node_at(nodes, id).refs >= 2,
    ensures
        after == crate::tmpfs::volume::one_less(nodes, id),
        crate::tmpfs::volume::live(after, id),
        crate::tmpfs::volume::node_at(after, id).body == crate::tmpfs::volume::node_at(
            nodes,
            id,
        ).body,
        crate::tmpfs::volume::total_len(after) == crate::tmpfs::volume::total_len(nodes),
{
    let steps = choose|steps: Seq<Dropping>| #[trigger]
        crate::tmpfs::volume::is_dropping(steps) && steps[0] == (Dropping {
            nodes,
            pending: seq![id],
        }) && steps.last().nodes == after && steps.last().pending.len() == 0;
    assert(crate::tmpfs::volume::drops_at(steps, 0));
    assert(steps[1].pending =~= Seq::<u64>::empty());
    if steps.len() > 2 {
        assert(crate::tmpfs::volume::drops_at(steps, 1));
    }
    crate::tmpfs::volume::lemma_totals_update(nodes, id as int, after[id as int]);
}

/// A file that is open keeps its contents, and the room that they take, when its name is
/// taken out of a directory.
pub proof fn law_open_file_survives_unlink(
    before: TmpfsVolume,
    after: TmpfsVolume,
    dir: u64,
    name: Seq<char>,
)
    requires
        before.inv(),
        after.inv(),
        before.has_node(dir),
        before.is_dir(dir),
        before.leads(dir, name),
        before.names(dir)[name] != dir,
        before.node(before.names(dir)[name]).refs >= 2,
        crate::tmpfs::volume::all_dropped(
            crate::tmpfs::inode::with_names(before@, dir, before.names(dir).remove(name)),
            seq![before.names(dir)[name]],
            after@,
        ),
    ensures
        after.has_node(before.names(dir)[name]),
        after.node(before.names(dir)[name]).body == before.node(before.names(dir)[name]).body,
        after.used == before.used,
        after.names(dir) == before.names(dir).remove(name),
{
    let id = before.names(dir)[name];
    let cut = crate::tmpfs::inode::with_names(before@, dir, before.names(dir).remove(name));
    crate::tmpfs::volume::lemma_totals_update(before@, dir as int, cut[dir as int]);
    assert(cut =~= before@.update(dir as int, cut[dir as int]));
    law_others_keep_it_alive(cut, id, after@);
}

/// What a write makes of a file: the bytes before it, the new bytes, and what stood behind
/// them; a gap between the end of the file and the new bytes is filled with zeros.
pub proof fn law_write(v: Seq<u8>, offset: int, buf: Seq<u8>)
    requires
        0 <= offset,
    ensures
        offset + buf.len() <= v.len() ==> crate::tmpfs::inode::written(v, offset, buf) == v.take(
            offset,
        ) + buf + v.skip(offset + buf.len()),
        offset <= v.len() <= offset + buf.len() ==> crate::tmpfs::inode::written(v, offset, buf)
            == v.take(offset) + buf,
        v.len() <= offset ==> crate::tmpfs::inode::written(v, offset, buf) == v + Seq::new(
            (offset - v.len()) as nat,
            |i: int| 0u8,
        ) + buf,
{
    let w = crate::tmpfs::inode::written(v, offset, buf);
    if offset + buf.len() <= v.len() {
        assert(w =~= v.take(offset) + buf + v.skip(offset + buf.len()));
    }
    if offset <= v.len() <= offset + buf.len() {
        assert(w =~= v.take(offset) + buf);
    }
    if v.len() <= offset {
        assert(w =~= v + Seq::new((offset - v.len()) as nat, |i: int| 0u8) + buf);
    }
}

/// What a change of length makes of a file: it is cut off, or zeros are put behind it.
pub proof fn law_resize(v: Seq<u8>, len: int)
    requires
        0 <= len,
    ensures
        len <= v.len() ==> crate::tmpfs::inode::resized(v, len) == v.take(len),
        v.len() <= len ==> crate::tmpfs::inode::resized(v, len) == v + Seq::new(
            (len - v.len()) as nat,
            |i: int| 0u8,
        ),
{
    if len <= v.len() {
        assert(crate::tmpfs::inode::resized(v, len) =~= v.take(len));
    }
    if v.len() <= len {
        assert(crate::tmpfs::inode::resized(v, len) =~= v + Seq::new(
            (len - v.len()) as nat,
            |i: int| 0u8,
        ));
    }
}

/// What is read of a file: as many bytes as are wanted and there are, from the place on.
pub proof fn law_part(v: Seq<u8>, offset: int, len: int)
    requires
        0 <= offset,
        0 <= len,
    ensures
        offset + len <= v.len() ==> crate::tmpfs::inode::part_of(v, offset, len) == v.skip(
            offset,
        ).take(len),
        offset <= v.len() <= offset + len ==> crate::tmpfs::inode::part_of(v, offset, len)
            == v.skip(offset),
        v.len() <= offset ==> crate::tmpfs::inode::part_of(v, offset, len).len() == 0,
{
    let p = crate::tmpfs::inode::part_of(v, offset, len);
    if offset + len <= v.len() {
        assert(p =~= v.skip(offset).take(len));
    }
    if offset <= v.len() <= offset + len {
        assert(p =~= v.skip(offset));
    }
}

/// The kind of a special file is what bits 12 to 15 of its mode say: 6 is a block device, 2 a
/// character device and 12 a socket, and those that have all bits of one of these count as the
/// first of them; anything else is a plain file.
pub proof fn law_kind_of_a_special_file(mode: u32)
    ensures
        ({
            let t = mode as int / 4096 % 16;
            let kind = crate::tmpfs::inode::type_for(mode);
            &&& kind is BlockDevice <==> t == 6 || t == 7 || t == 14 || t == 15
            &&& kind is CharDevice <==> t == 2 || t == 3 || t == 10 || t == 11
            &&& kind is Socket <==> t == 12 || t == 13
            &&& kind is Regular <==> t == 0 || t == 1 || t == 4 || t == 5 || t == 8 || t == 9
        }),
{
    let t = mode / 4096 % 16;
    assert((mode & 0o60000 == 0o60000) == (t / 2 % 2 == 1 && t / 4 % 2 == 1) && (mode & 0o20000
        == 0o20000) == (t / 2 % 2 == 1) && (mode & 0o140000 == 0o140000) == (t / 4 % 2 == 1 && t / 8
        % 2 == 1)) by (bit_vector)
        requires
            t == mode / 4096 % 16,
    ;
}

/// A name that is moved to one that was free leads to the same node under the new one; the
/// old one is gone, and nothing else has changed.
pub proof fn law_moved_name(
    before: TmpfsVolume,
    after: TmpfsVolume,
    dir: u64,
    to: u64,
    old_name: Seq<char>,
    new_name: Seq<char>,
    other: u64,
)
    requires
        before.has_node(dir),
        before.is_dir(dir),
        before.has_node(to),
        before.is_dir(to),
        before.names(dir).contains_key(old_name),
        !before.names(to).contains_key(new_name),
        before.moved(after, dir, to, old_name, new_name),
        other < before@.len(),
    ensures
        after.names(to).contains_key(new_name),
        after.names(to)[new_name] == before.names(dir)[old_name],
        !after.names(dir).contains_key(old_name),
        dir != to ==> after.names(dir) == before.names(dir).remove(old_name) && after.names(to)
            == before.names(to).insert(new_name, before.names(dir)[old_name]),
        other != dir && other != to ==> after@[other as int] == before@[other as int],
{
    let id = before.names(dir)[old_name];
    let cut = crate::tmpfs::inode::with_names(before@, dir, before.names(dir).remove(old_name));
    let there = crate::tmpfs::inode::names_in(cut, to);
    let put = crate::tmpfs::inode::with_names(cut, to, there.insert(new_name, id));
    assert(old_name != new_name || dir != to);
    lemma_nothing_is_dropped(put, after@);
}

proof fn lemma_nothing_is_dropped(nodes: Seq<Option<NodeView>>, after: Seq<Option<NodeView>>)
    requires
        crate::tmpfs::volume::all_dropped(nodes, Seq::empty(), after),
    ensures
        after == nodes,
{
    let steps = choose|steps: Seq<Dropping>| #[trigger]
        crate::tmpfs::volume::is_dropping(steps) && steps[0] == (Dropping {
            nodes,
            pending: Seq::<u64>::empty(),
        }) && steps.last().nodes == after && steps.last().pending.len() == 0;
    if steps.len() > 1 {
        assert(crate::tmpfs::volume::drops_at(steps, 0));
    }
}

/// Giving up the last reference to a file takes it away, with the room of its contents.
pub proof fn law_last_reference_frees(
    nodes: Seq<Option<NodeView>>,
    id: u64,
    after: Seq<Option<NodeView>>,
)
    requires
        crate::tmpfs::volume::all_dropped(nodes, seq![id], after),
        crate::tmpfs::volume::live(nodes, id),
        crate::tmpfs::volume::node_at(nodes, id).refs <= 1,
        crate::tmpfs::volume::node_at(nodes, id).body is File,
    ensures
        !crate::tmpfs::volume::live(after, id),
        crate::tmpfs::volume::total_len(after) == crate::tmpfs::volume::total_len(nodes) - (
        crate::tmpfs::volume::node_at(nodes, id).body->File_0).len(),
        forall|i: int| 0 <= i < nodes.len() && i != id ==> #[trigger] after[i] == nodes[i],
{
    let steps = choose|steps: Seq<Dropping>| #[trigger]
        crate::tmpfs::volume::is_dropping(steps) && steps[0] == (Dropping {
            nodes,
            pending: seq![id],
        }) && steps.last().nodes == after && steps.last().pending.len() == 0;
    assert(crate::tmpfs::volume::drops_at(steps, 0));
    assert(steps[1].pending =~= Seq::<u64>::empty());
    if steps.len() > 2 {
        assert(crate::tmpfs::volume::drops_at(steps, 1));
    }
    crate::tmpfs::volume::lemma_totals_update(nodes, id as int, None);
}

/// A write at the start of a link replaces its target; one behind it goes on as in a file.
pub proof fn law_link_is_rewritten(v: Seq<u8>, offset: int, buf: Seq<u8>)
    requires
        0 <= offset,
    ensures
        ({
            let r = crate::tmpfs::inode::body_written(BodyView::Symlink(v), offset, buf);
            &&& offset == 0 ==> r == Some(BodyView::Symlink(buf))
            &&& 0 < offset <= v.len() <= offset + buf.len() ==> r == Some(
                BodyView::Symlink(v.take(offset) + buf),
            )
        }),
{
    if 0 < offset {
        law_write(v, offset, buf);
    }
}

/// Files and links can be written and resized; directories and pipes cannot.
pub proof fn law_what_can_be_written(b: BodyView, offset: int, buf: Seq<u8>, len: int)
    ensures
        crate::tmpfs::inode::body_written(b, offset, buf) is None <==> b is Dir || b is Fifo,
        crate::tmpfs::inode::body_resized(b, len) is None <==> b is Dir || b is Fifo,
        b matches BodyView::File(v) ==> crate::tmpfs::inode::body_resized(b, len) == Some(
            BodyView::File(crate::tmpfs::inode::resized(v, len)),
        ),
{
}

/// There is room for new contents of a node exactly where all contents together stay within
/// 64 MiB then.
pub proof fn law_room(vol: TmpfsVolume, id: u64, b: BodyView)
    requires
        vol.inv(),
        vol.has_node(id),
    ensures
        vol.lacks_room(id, b) <==> crate::tmpfs::volume::total_len(
            crate::tmpfs::volume::with_node(vol@, id, NodeView { body: b, ..vol.node(id) }),
        ) > TMPFS_BUDGET,
{
    crate::tmpfs::volume::lemma_totals_update(
        vol@,
        id as int,
        Some(NodeView { body: b, ..vol.node(id) }),
    );
}

/// All files together hold at most 64 MiB, and the root has the first number.
pub proof fn law_budget()
    ensures
        crate::tmpfs::volume::TMPFS_BUDGET == 64 * 0x10_0000,
        crate::tmpfs::volume::ROOT_INO == 1,
{
}

} // verus!
