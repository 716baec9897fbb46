//! Operations on nodes.

use crate::bytes::sub_vec;
use crate::collections::ChildMap;
use crate::text::same_text;
use crate::tmpfs::volume::{
    Body, BodyView, InoCounter, Node, NodeView, TmpfsVolume, ROOT_INO, TMPFS_BUDGET,
};
use crate::vfs::{DirEntry, FileType, Stat, StatFs, VfsError};
use vstd::prelude::*;

verus! {

/// The bytes of `v` from `offset` on, `len` at most.
pub open spec fn part_of(v: Seq<u8>, offset: int, len: int) -> Seq<u8> {
    if offset >= v.len() {
        Seq::empty()
    } else if len < v.len() - offset {
        v.subrange(offset, offset + len)
    } else {
        v.subrange(offset, v.len() as int)
    }
}

/// `v` with `buf` written over it from `offset` on. Where it does not reach that
/// far, zeros fill the gap.
pub open spec fn written(v: Seq<u8>, offset: int, buf: Seq<u8>) -> Seq<u8> {
    Seq::new(
        if v.len() < offset + buf.len() {
            (offset + buf.len()) as nat
        } else {
            v.len()
        },
        |i: int|
            if offset <= i < offset + buf.len() {
                buf[i - offset]
            } else if i < v.len() {
                v[i]
            } else {
                0u8
            },
    )
}

/// `v` with the length `len`: cut off, or with zeros behind it.
pub open spec fn resized(v: Seq<u8>, len: int) -> Seq<u8> {
    Seq::new(
        len as nat,
        |i: int|
            if i < v.len() {
                v[i]
            } else {
                0u8
            },
    )
}

/// What a write makes of a body. One at the start of a link replaces its target.
pub open spec fn body_written(b: BodyView, offset: int, buf: Seq<u8>) -> Option<BodyView> {
    match b {
        BodyView::File(v) => Some(BodyView::File(written(v, offset, buf))),
        BodyView::Symlink(v) => Some(
            BodyView::Symlink(
                if offset == 0 {
                    buf
                } else {
                    written(v, offset, buf)
                },
            ),
        ),
        _ => None,
    }
}

/// What a change of length makes of a body.
pub open spec fn body_resized(b: BodyView, len: int) -> Option<BodyView> {
    match b {
        BodyView::File(v) => Some(BodyView::File(resized(v, len))),
        BodyView::Symlink(v) => Some(BodyView::Symlink(resized(v, len))),
        _ => None,
    }
}

/// The bytes that can be read of a body.
pub open spec fn body_bytes(b: BodyView) -> Option<Seq<u8>> {
    match b {
        BodyView::File(v) => Some(v),
        BodyView::Symlink(v) => Some(v),
        _ => None,
    }
}

/// One reference more.
pub open spec fn one_more(refs: u64) -> u64 {
    if refs < u64::MAX {
        (refs + 1) as u64
    } else {
        refs
    }
}

impl TmpfsVolume {
    /// The node with number `id`.
    pub open spec fn node(self, id: u64) -> NodeView {
        crate::tmpfs::volume::node_at(self@, id)
    }

    /// There is no room for a body `b` at node `id`.
    pub open spec fn lacks_room(self, id: u64, b: BodyView) -> bool {
        self.used - crate::tmpfs::volume::body_len(self.node(id).body)
            + crate::tmpfs::volume::body_len(b) > TMPFS_BUDGET
    }

    /// An operation on node `id` has left it with the body `b` and the time `now`.
    pub open spec fn rewritten(self, after: Self, id: u64, b: BodyView, now: u64) -> bool {
        after@ == crate::tmpfs::volume::with_node(
            self@,
            id,
            NodeView { body: b, mtime: now, ..self.node(id) },
        )
    }
}

/// Writes `buf` over `v` from `offset` on.
fn write_over(v: &mut Vec<u8>, offset: usize, buf: &[u8])
    requires
        offset + buf@.len() <= usize::MAX,
    ensures
        final(v)@ == written(old(v)@, offset as int, buf@),
{
    assert(buf@.len() == buf.len());
    let end: usize = offset + buf.len();
    let ghost before = v@;
    while v.len() < end
        invariant
            before.len() <= v@.len(),
            v@.len() <= end || v@.len() == before.len(),
            forall|k: int| 0 <= k < before.len() ==> #[trigger] v@[k] == before[k],
            forall|k: int| before.len() <= k < v@.len() ==> #[trigger] v@[k] == 0,
        decreases end - v@.len(),
    {
        v.push(0);
    }
    let ghost filled = v@;
    let mut i: usize = 0;
    while i < buf.len()
        invariant
            buf@.len() == buf.len(),
            i <= buf@.len(),
            end == offset + buf@.len(),
            v@.len() == filled.len(),
            end <= v@.len(),
            forall|k: int| 0 <= k < i ==> #[trigger] v@[offset + k] == buf@[k],
            forall|k: int|
                0 <= k < v@.len() && !(offset <= k < offset + i) ==> #[trigger] v@[k] == filled[k],
        decreases buf@.len() - i,
    {
        v.set(offset + i, buf[i]);
        i = i + 1;
    }
    assert forall|k: int| 0 <= k < v@.len() implies v@[k] == written(before, offset as int, buf@)[k] by {
        if offset <= k < end {
            assert(v@[offset + (k - offset)] == buf@[k - offset]);
        }
    }
    assert(v@ =~= written(before, offset as int, buf@));
}

/// Gives `v` the length `len`.
fn resize(v: &mut Vec<u8>, len: usize)
    ensures
        final(v)@ == resized(old(v)@, len as int),
{
    let ghost before = v@;
    if v.len() > len {
        v.truncate(len);
        assert(v@ =~= resized(before, len as int));
        return;
    }
    while v.len() < len
        invariant
            before.len() <= v@.len() <= len,
            forall|k: int| 0 <= k < before.len() ==> #[trigger] v@[k] == before[k],
            forall|k: int| before.len() <= k < v@.len() ==> #[trigger] v@[k] == 0,
        decreases len - v@.len(),
    {
        v.push(0);
    }
    assert(v@ =~= resized(before, len as int));
}

fn copy_of(v: &[u8]) -> (r: Vec<u8>)
    ensures
        r@ == v@,
{
    assert(v@.len() == v.len());
    let c: Vec<u8> = sub_vec(v, 0, v.len());
    assert(c@ =~= v@);
    c
}

fn read_part(v: &Vec<u8>, offset: u64, len: usize) -> (r: Vec<u8>)
    ensures
        r@ == part_of(v@, offset as int, len as int),
{
    if offset >= v.len() as u64 {
        return Vec::new();
    }
    let start: usize = offset as usize;
    let left: usize = v.len() - start;
    let n: usize = if len < left {
        len
    } else {
        left
    };
    sub_vec(v, start, start + n)
}

impl TmpfsVolume {
    fn node_ref(&self, id: u64) -> (r: &Node)
        requires
            self.has_node(id),
        ensures
            r@ == self.node(id),
    {
        assert(self.nodes@.len() == self.nodes.len());
        match &self.nodes[id as usize] {
            Some(n) => n,
            None => {
                assert(false);
                vstd::pervasive::unreached()
            },
        }
    }

    /// Reads `len` bytes from `offset` on, or as many as there are.
    pub fn read_at(&self, id: u64, offset: u64, len: usize) -> (r: Result<Vec<u8>, VfsError>)
        requires
            self.has_node(id),
        ensures
            match body_bytes(self.node(id).body) {
                Some(v) => r is Ok && r->Ok_0@ == part_of(v, offset as int, len as int),
                None => r == Err::<Vec<u8>, VfsError>(VfsError::IsADirectory),
            },
    {
        match &self.node_ref(id).body {
            Body::File(v) => Ok(read_part(v, offset, len)),
            Body::Symlink(v) => Ok(read_part(v, offset, len)),
            _ => Err(VfsError::IsADirectory),
        }
    }

    /// Writes `buf` from `offset` on. What would not keep to the budget is refused
    /// as a whole.
    pub fn write_at(&mut self, id: u64, offset: u64, buf: &[u8], now: u64) -> (r: Result<
        usize,
        VfsError,
    >)
        requires
            old(self).inv(),
            old(self).has_node(id),
        ensures
            final(self).inv(),
            match body_written(old(self).node(id).body, offset as int, buf@) {
                None => r == Err::<usize, VfsError>(VfsError::IsADirectory) && *final(self) == *old(self),
                Some(b) => if old(self).lacks_room(id, b) {
                    r == Err::<usize, VfsError>(VfsError::NoSpace) && final(self)@ == old(self)@
                        && final(self).used == old(self).used
                } else {
                    r == Ok::<usize, VfsError>(buf@.len() as usize) && old(self).rewritten(
                        *final(self),
                        id,
                        b,
                        now,
                    )
                },
            },
    {
        assert(buf@.len() == buf.len());
        let ghost before = self@;
        let ghost n0 = self.node(id);
        proof {
            crate::tmpfs::volume::lemma_totals_update(before, id as int, None);
        }
        let (is_link, old_len): (bool, u64) = match &self.node_ref(id).body {
            Body::File(v) => (false, v.len() as u64),
            Body::Symlink(v) => (true, v.len() as u64),
            _ => return Err(VfsError::IsADirectory),
        };
        let replace: bool = is_link && offset == 0;
        let end: u64 = match offset.checked_add(buf.len() as u64) {
            Some(e) => e,
            None => return Err(VfsError::NoSpace),
        };
        let new_len: u64 = if replace || end > old_len {
            end
        } else {
            old_len
        };
        let others: u64 = self.used - old_len;
        if new_len > TMPFS_BUDGET - others {
            return Err(VfsError::NoSpace);
        }
        let mut n: Node = self.take_node(id);
        match n.body {
            Body::File(mut v) => {
                write_over(&mut v, offset as usize, buf);
                n.body = Body::File(v);
            },
            Body::Symlink(mut v) => {
                if replace {
                    v = copy_of(buf);
                } else {
                    write_over(&mut v, offset as usize, buf);
                }
                n.body = Body::Symlink(v);
            },
            other => {
                n.body = other;
            },
        }
        n.mtime = now;
        let ghost view = n@;
        self.put_node(id, n);
        self.used = others + new_len;
        proof {
            assert(view =~= (NodeView {
                body: body_written(n0.body, offset as int, buf@)->0,
                mtime: now,
                ..n0
            }));
            assert(self@ =~= crate::tmpfs::volume::with_node(before, id, view));
            crate::tmpfs::volume::lemma_totals_update(before, id as int, Some(view));
        }
        Ok(buf.len())
    }

    /// Changes the length of a file or of a link's target.
    pub fn truncate(&mut self, id: u64, len: u64, now: u64) -> (r: Result<(), VfsError>)
        requires
            old(self).inv(),
            old(self).has_node(id),
        ensures
            final(self).inv(),
            match body_resized(old(self).node(id).body, len as int) {
                None => r == Err::<(), VfsError>(VfsError::IsADirectory) && *final(self) == *old(self),
                Some(b) => if old(self).lacks_room(id, b) {
                    r == Err::<(), VfsError>(VfsError::NoSpace) && final(self)@ == old(self)@
                        && final(self).used == old(self).used
                } else {
                    r == Ok::<(), VfsError>(()) && old(self).rewritten(*final(self), id, b, now)
                },
            },
    {
        let ghost before = self@;
        let ghost n0 = self.node(id);
        proof {
            crate::tmpfs::volume::lemma_totals_update(before, id as int, None);
        }
        let old_len: u64 = match &self.node_ref(id).body {
            Body::File(v) => v.len() as u64,
            Body::Symlink(v) => v.len() as u64,
            _ => return Err(VfsError::IsADirectory),
        };
        let others: u64 = self.used - old_len;
        if len > TMPFS_BUDGET - others {
            return Err(VfsError::NoSpace);
        }
        let mut n: Node = self.take_node(id);
        match n.body {
            Body::File(mut v) => {
                resize(&mut v, len as usize);
                n.body = Body::File(v);
            },
            Body::Symlink(mut v) => {
                resize(&mut v, len as usize);
                n.body = Body::Symlink(v);
            },
            other => {
                n.body = other;
            },
        }
        n.mtime = now;
        let ghost view = n@;
        self.put_node(id, n);
        self.used = others + len;
        proof {
            assert(view =~= (NodeView {
                body: body_resized(n0.body, len as int)->0,
                mtime: now,
                ..n0
            }));
            assert(self@ =~= crate::tmpfs::volume::with_node(before, id, view));
            crate::tmpfs::volume::lemma_totals_update(before, id as int, Some(view));
        }
        Ok(())
    }
}

/// The names in the directory at `id`.
pub open spec fn names_in(nodes: Seq<Option<NodeView>>, id: u64) -> Map<Seq<char>, u64> {
    crate::tmpfs::volume::node_at(nodes, id).body->Dir_0
}

/// The table with other names in the directory at `id`.
pub open spec fn with_names(
    nodes: Seq<Option<NodeView>>,
    id: u64,
    names: Map<Seq<char>, u64>,
) -> Seq<Option<NodeView>> {
    crate::tmpfs::volume::with_node(
        nodes,
        id,
        NodeView { body: BodyView::Dir(names), ..crate::tmpfs::volume::node_at(nodes, id) },
    )
}

/// The table with the reference count of node `id` raised by one.
pub open spec fn with_ref(nodes: Seq<Option<NodeView>>, id: u64) -> Seq<Option<NodeView>> {
    crate::tmpfs::volume::with_node(
        nodes,
        id,
        NodeView {
            refs: one_more(crate::tmpfs::volume::node_at(nodes, id).refs),
            ..crate::tmpfs::volume::node_at(nodes, id)
        },
    )
}

/// The table with a new node behind all others, under the name `name` in the
/// directory at `dir`. The name and the handle that is handed out refer to it.
pub open spec fn with_child(
    nodes: Seq<Option<NodeView>>,
    dir: u64,
    name: Seq<char>,
    n: NodeView,
) -> Seq<Option<NodeView>> {
    with_names(nodes, dir, names_in(nodes, dir).insert(name, nodes.len() as u64)).push(
        Some(NodeView { refs: 2, ..n }),
    )
}

impl TmpfsVolume {
    /// The node at `id` is a directory.
    pub open spec fn is_dir(self, id: u64) -> bool {
        self.node(id).body is Dir
    }

    /// The names in the directory at `id`.
    pub open spec fn names(self, id: u64) -> Map<Seq<char>, u64> {
        names_in(self@, id)
    }

    /// What came of making the node `n` under `name` in `dir`.
    pub open spec fn made(
        self,
        after: Self,
        dir: u64,
        name: Seq<char>,
        n: NodeView,
        ids: InoCounter,
        ids_after: InoCounter,
        r: Result<u64, VfsError>,
    ) -> bool {
        if !self.is_dir(dir) {
            r == Err::<u64, VfsError>(VfsError::NotADirectory) && after@ == self@ && after.used
                == self.used && ids_after == ids
        } else if self.names(dir).contains_key(name) {
            r == Err::<u64, VfsError>(VfsError::AlreadyExists) && after@ == self@ && after.used
                == self.used && ids_after == ids
        } else if self.used + crate::tmpfs::volume::body_len(n.body) > TMPFS_BUDGET {
            r == Err::<u64, VfsError>(VfsError::NoSpace) && after@ == self@ && after.used
                == self.used && ids_after == ids
        } else {
            &&& r == Ok::<u64, VfsError>(self@.len() as u64)
            &&& after@ == with_child(self@, dir, name, NodeView { ino: ids.next, ..n })
            &&& ids_after.next == ids.next.wrapping_add(1)
        }
    }

    /// Makes a node under a new name.
    fn add_child(&mut self, dir: u64, name: &str, n: Node, ids: &mut InoCounter) -> (r: Result<
        u64,
        VfsError,
    >)
        requires
            old(self).inv(),
            old(self).has_node(dir),
        ensures
            final(self).inv(),
            old(self).made(*final(self), dir, name@, n@, *old(ids), *final(ids), r),
    {
        let ghost before = self@;
        match &self.node_ref(dir).body {
            Body::Dir(m) => {
                if m.get(name).is_some() {
                    return Err(VfsError::AlreadyExists);
                }
            },
            _ => return Err(VfsError::NotADirectory),
        }
        let len: u64 = match &n.body {
            Body::File(v) => v.len() as u64,
            Body::Symlink(v) => v.len() as u64,
            _ => 0,
        };
        if len > TMPFS_BUDGET - self.used {
            return Err(VfsError::NoSpace);
        }
        let mut child: Node = n;
        child.ino = ids.take();
        child.refs = 2;
        let ghost child_view = child@;
        assert(self.nodes@.len() == self.nodes.len());
        let id: u64 = self.nodes.len() as u64;
        let mut d: Node = self.take_node(dir);
        match d.body {
            Body::Dir(mut m) => {
                let _ = m.insert(name.to_string(), id);
                d.body = Body::Dir(m);
            },
            other => {
                d.body = other;
            },
        }
        let ghost dir_view = d@;
        self.put_node(dir, d);
        let ghost mid = self@;
        self.nodes.push(Some(child));
        self.used = self.used + len;
        proof {
            let names = names_in(before, dir).insert(name@, id);
            assert(dir_view =~= (NodeView {
                body: BodyView::Dir(names),
                ..crate::tmpfs::volume::node_at(before, dir)
            }));
            assert(mid =~= with_names(before, dir, names));
            assert(self@ =~= mid.push(Some(child_view)));
            crate::tmpfs::volume::lemma_totals_update(before, dir as int, Some(dir_view));
            crate::tmpfs::volume::lemma_totals_push(mid, Some(child_view));
            assert(child_view =~= (NodeView { refs: 2, ino: old(ids).next, ..n@ }));
            assert(self@ =~= with_child(
                before,
                dir,
                name@,
                NodeView { ino: old(ids).next, ..n@ },
            ));
        }
        Ok(id)
    }

    /// Makes an empty file.
    pub fn create(&mut self, dir: u64, name: &str, ids: &mut InoCounter, now: u64) -> (r: Result<
        u64,
        VfsError,
    >)
        requires
            old(self).inv(),
            old(self).has_node(dir),
        ensures
            final(self).inv(),
            old(self).made(
                *final(self),
                dir,
                name@,
                new_node(FileType::Regular, BodyView::File(Seq::empty()), now, 0o644),
                *old(ids),
                *final(ids),
                r,
            ),
    {
        let n: Node = fresh(FileType::Regular, Body::File(Vec::new()), now, 0o644);
        assert(n@ =~= new_node(FileType::Regular, BodyView::File(Seq::empty()), now, 0o644));
        self.add_child(dir, name, n, ids)
    }

    /// Makes an empty directory.
    pub fn mkdir(&mut self, dir: u64, name: &str, ids: &mut InoCounter, now: u64) -> (r: Result<
        u64,
        VfsError,
    >)
        requires
            old(self).inv(),
            old(self).has_node(dir),
        ensures
            final(self).inv(),
            old(self).made(
                *final(self),
                dir,
                name@,
                new_node(FileType::Directory, BodyView::Dir(Map::empty()), now, 0o755),
                *old(ids),
                *final(ids),
                r,
            ),
    {
        let n: Node = fresh(FileType::Directory, Body::Dir(ChildMap::new()), now, 0o755);
        assert(n@ =~= new_node(FileType::Directory, BodyView::Dir(Map::empty()), now, 0o755));
        self.add_child(dir, name, n, ids)
    }

    /// Makes a link to `target`, whose bytes count against the budget.
    pub fn symlink(
        &mut self,
        dir: u64,
        name: &str,
        target: &str,
        ids: &mut InoCounter,
        now: u64,
    ) -> (r: Result<u64, VfsError>)
        requires
            old(self).inv(),
            old(self).has_node(dir),
        ensures
            final(self).inv(),
            old(self).made(
                *final(self),
                dir,
                name@,
                new_node(
                    FileType::Symlink,
                    BodyView::Symlink(vstd::utf8::encode_utf8(target@)),
                    now,
                    0o777,
                ),
                *old(ids),
                *final(ids),
                r,
            ),
    {
        let bytes: Vec<u8> = copy_of(target.as_bytes());
        let n: Node = fresh(FileType::Symlink, Body::Symlink(bytes), now, 0o777);
        assert(n@ =~= new_node(
            FileType::Symlink,
            BodyView::Symlink(vstd::utf8::encode_utf8(target@)),
            now,
            0o777,
        ));
        self.add_child(dir, name, n, ids)
    }

    /// Makes a device or a socket, as the upper bits of `mode` say, or else a file.
    pub fn mknod(&mut self, dir: u64, name: &str, mode: u32, ids: &mut InoCounter, now: u64) -> (r:
        Result<u64, VfsError>)
        requires
            old(self).inv(),
            old(self).has_node(dir),
        ensures
            final(self).inv(),
            old(self).made(
                *final(self),
                dir,
                name@,
                new_node(
                    type_for(mode),
                    BodyView::File(Seq::empty()),
                    now,
                    mode & 0o7777,
                ),
                *old(ids),
                *final(ids),
                r,
            ),
    {
        let file_type: FileType = if mode & 0o60000 == 0o60000 {
            FileType::BlockDevice
        } else if mode & 0o20000 == 0o20000 {
            FileType::CharDevice
        } else if mode & 0o140000 == 0o140000 {
            FileType::Socket
        } else {
            FileType::Regular
        };
        let n: Node = fresh(file_type, Body::File(Vec::new()), now, mode & 0o7777);
        assert(n@ =~= new_node(
            type_for(mode),
            BodyView::File(Seq::empty()),
            now,
            mode & 0o7777,
        ));
        self.add_child(dir, name, n, ids)
    }

    /// Makes a pipe.
    pub fn mkfifo(&mut self, dir: u64, name: &str, mode: u32, ids: &mut InoCounter, now: u64) -> (r:
        Result<u64, VfsError>)
        requires
            old(self).inv(),
            old(self).has_node(dir),
        ensures
            final(self).inv(),
            old(self).made(
                *final(self),
                dir,
                name@,
                new_node(FileType::Fifo, BodyView::Fifo, now, mode & 0o777),
                *old(ids),
                *final(ids),
                r,
            ),
    {
        let n: Node = fresh(FileType::Fifo, Body::Fifo, now, mode & 0o777);
        assert(n@ =~= new_node(FileType::Fifo, BodyView::Fifo, now, mode & 0o777));
        self.add_child(dir, name, n, ids)
    }
}

/// The type of node that `mode` asks for.
pub open spec fn type_for(mode: u32) -> FileType {
    if mode & 0o60000 == 0o60000 {
        FileType::BlockDevice
    } else if mode & 0o20000 == 0o20000 {
        FileType::CharDevice
    } else if mode & 0o140000 == 0o140000 {
        FileType::Socket
    } else {
        FileType::Regular
    }
}

/// A node that is about to be made.
pub open spec fn new_node(file_type: FileType, body: BodyView, now: u64, mode: u32) -> NodeView {
    NodeView { ino: 0, file_type, body, mtime: now, mode, refs: 0 }
}

fn fresh(file_type: FileType, body: Body, now: u64, mode: u32) -> (r: Node)
    ensures
        r.ino == 0,
        r.file_type == file_type,
        r.body == body,
        r.mtime == now,
        r.mode == mode,
        r.refs == 0,
{
    Node { ino: 0, file_type, body, mtime: now, mode, refs: 0 }
}

/// The line of a listing shows the node that `name` refers to.
pub open spec fn shows(nodes: Seq<Option<NodeView>>, names: Map<Seq<char>, u64>, d: DirEntry) -> bool {
    &&& names.contains_key(d.name@)
    &&& crate::tmpfs::volume::live(nodes, names[d.name@])
    &&& d.ino == crate::tmpfs::volume::node_at(nodes, names[d.name@]).ino
    &&& d.file_type == crate::tmpfs::volume::node_at(nodes, names[d.name@]).file_type
}

/// The lines of a listing show each name once.
pub open spec fn is_listing(
    nodes: Seq<Option<NodeView>>,
    names: Map<Seq<char>, u64>,
    v: Seq<DirEntry>,
) -> bool {
    &&& forall|i: int| 0 <= i < v.len() ==> shows(nodes, names, #[trigger] v[i])
    &&& forall|i: int, j: int|
        0 <= i < v.len() && 0 <= j < v.len() && i != j ==> #[trigger] v[i].name@
            != #[trigger] v[j].name@
    &&& forall|n: Seq<char>| #[trigger]
        names.contains_key(n) && crate::tmpfs::volume::live(nodes, names[n]) ==> exists|i: int|
            0 <= i < v.len() && (#[trigger] v[i]).name@ == n
}

/// One of the names that stand for a directory itself and for its parent.
pub open spec fn is_dots(name: Seq<char>) -> bool {
    name == "."@ || name == ".."@
}

fn dots(name: &str) -> (r: bool)
    ensures
        r == is_dots(name@),
{
    same_text(name, ".") || same_text(name, "..")
}

impl TmpfsVolume {
    /// The name `name` in `dir` refers to a node that is there.
    pub open spec fn leads(self, dir: u64, name: Seq<char>) -> bool {
        self.names(dir).contains_key(name) && self.has_node(self.names(dir)[name])
    }

    /// Opens a handle on what a name refers to.
    pub fn lookup(&mut self, dir: u64, name: &str) -> (r: Result<u64, VfsError>)
        requires
            old(self).inv(),
            old(self).has_node(dir),
        ensures
            final(self).inv(),
            if !old(self).is_dir(dir) {
                r == Err::<u64, VfsError>(VfsError::NotADirectory) && *final(self) == *old(self)
            } else if !old(self).leads(dir, name@) {
                r == Err::<u64, VfsError>(VfsError::NotFound) && *final(self) == *old(self)
            } else {
                r == Ok::<u64, VfsError>(old(self).names(dir)[name@]) && final(self)@ == with_ref(
                    old(self)@,
                    old(self).names(dir)[name@],
                )
            },
    {
        let found: Option<u64> = match &self.node_ref(dir).body {
            Body::Dir(m) => m.get(name),
            _ => return Err(VfsError::NotADirectory),
        };
        match found {
            None => Err(VfsError::NotFound),
            Some(id) => {
                if !self.is_live(id) {
                    return Err(VfsError::NotFound);
                }
                self.add_ref(id);
                Ok(id)
            },
        }
    }

    fn add_ref(&mut self, id: u64)
        requires
            old(self).inv(),
            old(self).has_node(id),
        ensures
            final(self).inv(),
            final(self)@ == with_ref(old(self)@, id),
    {
        let ghost before = self@;
        let mut n: Node = self.take_node(id);
        if n.refs < u64::MAX {
            n.refs = n.refs + 1;
        }
        let ghost view = n@;
        self.put_node(id, n);
        proof {
            assert(self@ =~= with_ref(before, id));
            crate::tmpfs::volume::lemma_totals_update(before, id as int, Some(view));
        }
    }

    /// Closes a handle.
    pub fn close(&mut self, id: u64)
        requires
            old(self).inv(),
        ensures
            final(self).inv(),
            crate::tmpfs::volume::all_dropped(old(self)@, seq![id], final(self)@),
    {
        self.drop_ref(id);
    }

    /// Takes a name out of a directory. What it refers to lives on as long as
    /// anything else refers to it.
    pub fn unlink(&mut self, dir: u64, name: &str) -> (r: Result<(), VfsError>)
        requires
            old(self).inv(),
            old(self).has_node(dir),
        ensures
            final(self).inv(),
            if !old(self).is_dir(dir) {
                r == Err::<(), VfsError>(VfsError::NotADirectory) && *final(self) == *old(self)
            } else if !old(self).names(dir).contains_key(name@) {
                r == Err::<(), VfsError>(VfsError::NotFound) && *final(self) == *old(self)
            } else {
                r == Ok::<(), VfsError>(()) && crate::tmpfs::volume::all_dropped(
                    with_names(old(self)@, dir, old(self).names(dir).remove(name@)),
                    seq![old(self).names(dir)[name@]],
                    final(self)@,
                )
            },
    {
        let found: Option<u64> = match &self.node_ref(dir).body {
            Body::Dir(m) => m.get(name),
            _ => return Err(VfsError::NotADirectory),
        };
        match found {
            None => Err(VfsError::NotFound),
            Some(id) => {
                self.cut(dir, name);
                self.drop_ref(id);
                Ok(())
            },
        }
    }

    /// Takes a name out of a directory, with the reference left as it is.
    fn cut(&mut self, dir: u64, name: &str)
        requires
            old(self).inv(),
            old(self).has_node(dir),
            old(self).is_dir(dir),
        ensures
            final(self).inv(),
            final(self)@ == with_names(old(self)@, dir, old(self).names(dir).remove(name@)),
            final(self).nodes@.len() == old(self).nodes@.len(),
    {
        let ghost before = self@;
        let mut d: Node = self.take_node(dir);
        match d.body {
            Body::Dir(mut m) => {
                let _ = m.remove(name);
                d.body = Body::Dir(m);
            },
            other => {
                d.body = other;
            },
        }
        let ghost view = d@;
        self.put_node(dir, d);
        proof {
            assert(self@ =~= with_names(before, dir, names_in(before, dir).remove(name@)));
            crate::tmpfs::volume::lemma_totals_update(before, dir as int, Some(view));
        }
    }

    /// Puts a name into a directory, with the reference left as it is: what the
    /// name referred to before.
    fn paste(&mut self, dir: u64, name: &str, id: u64) -> (r: Option<u64>)
        requires
            old(self).inv(),
            old(self).has_node(dir),
            old(self).is_dir(dir),
        ensures
            final(self).inv(),
            final(self)@ == with_names(old(self)@, dir, old(self).names(dir).insert(name@, id)),
            final(self).nodes@.len() == old(self).nodes@.len(),
            r == (if old(self).names(dir).contains_key(name@) {
                Some(old(self).names(dir)[name@])
            } else {
                None
            }),
    {
        let ghost before = self@;
        let mut d: Node = self.take_node(dir);
        let mut was: Option<u64> = None;
        match d.body {
            Body::Dir(mut m) => {
                was = m.insert(name.to_string(), id);
                d.body = Body::Dir(m);
            },
            other => {
                d.body = other;
            },
        }
        let ghost view = d@;
        self.put_node(dir, d);
        proof {
            assert(self@ =~= with_names(before, dir, names_in(before, dir).insert(name@, id)));
            crate::tmpfs::volume::lemma_totals_update(before, dir as int, Some(view));
        }
        was
    }

    /// The name refers to a directory that has names in it.
    pub open spec fn is_full(self, dir: u64, name: Seq<char>) -> bool {
        let id = self.names(dir)[name];
        self.has_node(id) && self.is_dir(id) && self.names(id) != Map::<Seq<char>, u64>::empty()
    }

    /// Takes an empty directory out of another.
    pub fn rmdir(&mut self, dir: u64, name: &str) -> (r: Result<(), VfsError>)
        requires
            old(self).inv(),
            old(self).has_node(dir),
        ensures
            final(self).inv(),
            if !old(self).is_dir(dir) {
                r == Err::<(), VfsError>(VfsError::NotADirectory) && *final(self) == *old(self)
            } else if !old(self).names(dir).contains_key(name@) {
                r == Err::<(), VfsError>(VfsError::NotFound) && *final(self) == *old(self)
            } else if old(self).is_full(dir, name@) {
                r == Err::<(), VfsError>(VfsError::NotEmpty) && *final(self) == *old(self)
            } else {
                r == Ok::<(), VfsError>(()) && crate::tmpfs::volume::all_dropped(
                    with_names(old(self)@, dir, old(self).names(dir).remove(name@)),
                    seq![old(self).names(dir)[name@]],
                    final(self)@,
                )
            },
    {
        let found: Option<u64> = match &self.node_ref(dir).body {
            Body::Dir(m) => m.get(name),
            _ => return Err(VfsError::NotADirectory),
        };
        match found {
            None => Err(VfsError::NotFound),
            Some(id) => {
                if self.is_live(id) {
                    if let Body::Dir(m) = &self.node_ref(id).body {
                        if !m.is_empty() {
                            return Err(VfsError::NotEmpty);
                        }
                    }
                }
                self.cut(dir, name);
                self.drop_ref(id);
                Ok(())
            },
        }
    }

    /// Gives what a name refers to another name in the same directory. What the new
    /// name referred to loses it.
    pub fn rename(&mut self, dir: u64, old_name: &str, new_name: &str) -> (r: Result<(), VfsError>)
        requires
            old(self).inv(),
            old(self).has_node(dir),
        ensures
            final(self).inv(),
            if !old(self).is_dir(dir) {
                r == Err::<(), VfsError>(VfsError::NotADirectory) && *final(self) == *old(self)
            } else if !old(self).names(dir).contains_key(old_name@) {
                r == Err::<(), VfsError>(VfsError::NotFound) && *final(self) == *old(self)
            } else {
                r == Ok::<(), VfsError>(()) && old(self).moved(
                    *final(self),
                    dir,
                    dir,
                    old_name@,
                    new_name@,
                )
            },
    {
        let found: Option<u64> = match &self.node_ref(dir).body {
            Body::Dir(m) => m.get(old_name),
            _ => return Err(VfsError::NotADirectory),
        };
        match found {
            None => Err(VfsError::NotFound),
            Some(id) => {
                self.carry(dir, dir, old_name, new_name, id);
                Ok(())
            },
        }
    }

    /// The name `old_name` of `dir` has become the name `new_name` of `to`, and what
    /// that referred to before has lost it.
    pub open spec fn moved(
        self,
        after: Self,
        dir: u64,
        to: u64,
        old_name: Seq<char>,
        new_name: Seq<char>,
    ) -> bool {
        let id = self.names(dir)[old_name];
        let cut = with_names(self@, dir, self.names(dir).remove(old_name));
        let there = names_in(cut, to);
        crate::tmpfs::volume::all_dropped(
            with_names(cut, to, there.insert(new_name, id)),
            if there.contains_key(new_name) {
                seq![there[new_name]]
            } else {
                Seq::empty()
            },
            after@,
        )
    }

    fn carry(&mut self, dir: u64, to: u64, old_name: &str, new_name: &str, id: u64)
        requires
            old(self).inv(),
            old(self).has_node(dir),
            old(self).is_dir(dir),
            old(self).has_node(to),
            old(self).is_dir(to),
            old(self).names(dir).contains_key(old_name@),
            id == old(self).names(dir)[old_name@],
        ensures
            final(self).inv(),
            old(self).moved(*final(self), dir, to, old_name@, new_name@),
    {
        self.cut(dir, old_name);
        let was: Option<u64> = self.paste(to, new_name, id);
        match was {
            Some(other) => self.drop_ref(other),
            None => {
                proof {
                    crate::tmpfs::volume::lemma_nothing_dropped(self@);
                }
            },
        }
    }

    /// Moves a name from one directory to another. `same_volume` says that both
    /// belong to this file system.
    pub fn rename_across_dirs(
        &mut self,
        dir: u64,
        to: u64,
        same_volume: bool,
        old_name: &str,
        new_name: &str,
    ) -> (r: Result<(), VfsError>)
        requires
            old(self).inv(),
            old(self).has_node(dir),
            same_volume ==> old(self).has_node(to),
        ensures
            final(self).inv(),
            if !same_volume {
                r == Err::<(), VfsError>(VfsError::CrossDeviceLink) && *final(self) == *old(self)
            } else if old(self).node(dir).file_type != FileType::Directory || old(self).node(
                to,
            ).file_type != FileType::Directory {
                r == Err::<(), VfsError>(VfsError::NotADirectory) && *final(self) == *old(self)
            } else if is_dots(old_name@) || is_dots(new_name@) {
                r == Err::<(), VfsError>(VfsError::InvalidInput) && *final(self) == *old(self)
            } else if !old(self).is_dir(dir) || !old(self).is_dir(to) {
                r == Err::<(), VfsError>(VfsError::NotADirectory) && *final(self) == *old(self)
            } else if !old(self).names(dir).contains_key(old_name@) {
                r == Err::<(), VfsError>(VfsError::NotFound) && *final(self) == *old(self)
            } else {
                r == Ok::<(), VfsError>(()) && old(self).moved(
                    *final(self),
                    dir,
                    to,
                    old_name@,
                    new_name@,
                )
            },
    {
        if !same_volume {
            return Err(VfsError::CrossDeviceLink);
        }
        if self.node_ref(dir).file_type != FileType::Directory || self.node_ref(to).file_type
            != FileType::Directory {
            return Err(VfsError::NotADirectory);
        }
        if dots(old_name) || dots(new_name) {
            return Err(VfsError::InvalidInput);
        }
        match &self.node_ref(to).body {
            Body::Dir(_) => {},
            _ => return Err(VfsError::NotADirectory),
        }
        let found: Option<u64> = match &self.node_ref(dir).body {
            Body::Dir(m) => m.get(old_name),
            _ => return Err(VfsError::NotADirectory),
        };
        match found {
            None => Err(VfsError::NotFound),
            Some(id) => {
                self.carry(dir, to, old_name, new_name, id);
                Ok(())
            },
        }
    }

    /// Gives what a name refers to a second name.
    pub fn link(&mut self, dir: u64, old_name: &str, new_name: &str) -> (r: Result<(), VfsError>)
        requires
            old(self).inv(),
            old(self).has_node(dir),
        ensures
            final(self).inv(),
            if !old(self).is_dir(dir) {
                r == Err::<(), VfsError>(VfsError::NotADirectory) && *final(self) == *old(self)
            } else if !old(self).leads(dir, old_name@) {
                r == Err::<(), VfsError>(VfsError::NotFound) && *final(self) == *old(self)
            } else if old(self).names(dir).contains_key(new_name@) {
                r == Err::<(), VfsError>(VfsError::AlreadyExists) && *final(self) == *old(self)
            } else {
                let id = old(self).names(dir)[old_name@];
                let named = with_names(old(self)@, dir, old(self).names(dir).insert(new_name@, id));
                r == Ok::<(), VfsError>(()) && final(self)@ == with_ref(named, id)
            },
    {
        let (found, taken): (Option<u64>, bool) = match &self.node_ref(dir).body {
            Body::Dir(m) => (m.get(old_name), m.get(new_name).is_some()),
            _ => return Err(VfsError::NotADirectory),
        };
        match found {
            None => Err(VfsError::NotFound),
            Some(id) => {
                if !self.is_live(id) {
                    return Err(VfsError::NotFound);
                }
                if taken {
                    return Err(VfsError::AlreadyExists);
                }
                let _ = self.paste(dir, new_name, id);
                self.add_ref(id);
                Ok(())
            },
        }
    }

    /// The names in a directory, in an order that is left open.
    pub fn readdir(&self, dir: u64) -> (r: Result<Vec<DirEntry>, VfsError>)
        requires
            self.has_node(dir),
        ensures
            if self.is_dir(dir) {
                r is Ok && is_listing(self@, self.names(dir), r->Ok_0@)
            } else {
                r == Err::<Vec<DirEntry>, VfsError>(VfsError::NotADirectory)
            },
    {
        let m: &ChildMap = match &self.node_ref(dir).body {
            Body::Dir(m) => m,
            _ => return Err(VfsError::NotADirectory),
        };
        let ghost map = self.names(dir);
        let names: Vec<String> = m.names();
        let mut out: Vec<DirEntry> = Vec::new();
        let mut i: usize = 0;
        while i < names.len()
            invariant
                i <= names@.len(),
                map == crate::collections::child_map(*m),
                forall|a: int, b: int|
                    0 <= a < names@.len() && 0 <= b < names@.len() && a != b
                        ==> #[trigger] names@[a]@ != #[trigger] names@[b]@,
                forall|k: int| 0 <= k < names@.len() ==> map.contains_key((#[trigger] names@[k])@),
                forall|k: int| 0 <= k < out@.len() ==> shows(self@, map, #[trigger] out@[k]),
                forall|k: int|
                    0 <= k < out@.len() ==> exists|j: int|
                        0 <= j < i && (#[trigger] names@[j])@ == (#[trigger] out@[k]).name@,
                forall|a: int, b: int|
                    0 <= a < out@.len() && 0 <= b < out@.len() && a != b
                        ==> #[trigger] out@[a].name@ != #[trigger] out@[b].name@,
                forall|j: int|
                    0 <= j < i && crate::tmpfs::volume::live(
                        self@,
                        map[(#[trigger] names@[j])@],
                    ) ==> exists|k: int|
                        0 <= k < out@.len() && (#[trigger] out@[k]).name@ == names@[j]@,
            decreases names@.len() - i,
        {
            assert(map.contains_key(names@[i as int]@));
            let ghost before = out@;
            match m.get(names[i].as_str()) {
                Some(id) => {
                    if self.is_live(id) {
                        let n: &Node = self.node_ref(id);
                        let line = DirEntry {
                            ino: n.ino,
                            name: names[i].clone(),
                            file_type: n.file_type,
                        };
                        assert(line.name@ == names@[i as int]@);
                        out.push(line);
                        proof {
                            assert forall|k: int| 0 <= k < out@.len() implies exists|j: int|
                                0 <= j < i + 1 && (#[trigger] names@[j])@ == (
                                #[trigger] out@[k]).name@ by {
                                if k < before.len() {
                                    assert(out@[k] == before[k]);
                                } else {
                                    assert(names@[i as int]@ == out@[k].name@);
                                }
                            }
                            assert forall|a: int, b: int|
                                0 <= a < out@.len() && 0 <= b < out@.len() && a
                                    != b implies #[trigger] out@[a].name@
                                != #[trigger] out@[b].name@ by {
                                if a < before.len() && b < before.len() {
                                    assert(out@[a] == before[a] && out@[b] == before[b]);
                                } else if a < before.len() {
                                    assert(out@[a] == before[a]);
                                } else {
                                    assert(out@[b] == before[b]);
                                }
                            }
                            assert forall|j: int|
                                0 <= j < i + 1 && crate::tmpfs::volume::live(
                                    self@,
                                    map[(#[trigger] names@[j])@],
                                ) implies exists|k: int|
                                0 <= k < out@.len() && (#[trigger] out@[k]).name@ == names@[j]@ by {
                                if j < i {
                                    let k = choose|k: int|
                                        0 <= k < before.len() && (#[trigger] before[k]).name@
                                            == names@[j]@;
                                    assert(out@[k] == before[k]);
                                } else {
                                    assert(out@[before.len() as int].name@ == names@[j]@);
                                }
                            }
                        }
                    }
                },
                None => {
                    assert(false);
                },
            }
            i = i + 1;
        }
        proof {
            assert forall|n: Seq<char>| #[trigger]
                map.contains_key(n) && crate::tmpfs::volume::live(
                    self@,
                    map[n],
                ) implies exists|k: int| 0 <= k < out@.len() && (#[trigger] out@[k]).name@ == n by {
                let j = choose|j: int| 0 <= j < names@.len() && (#[trigger] names@[j])@ == n;
                assert(names@[j]@ == n);
            }
        }
        Ok(out)
    }

    pub fn getattr(&self, id: u64) -> (r: Result<Stat, VfsError>)
        requires
            self.has_node(id),
        ensures
            r == Ok::<Stat, VfsError>(
                Stat {
                    ino: self.node(id).ino,
                    size: crate::tmpfs::volume::body_len(self.node(id).body) as u64,
                    file_type: self.node(id).file_type,
                    mtime: self.node(id).mtime,
                    mode: self.node(id).mode,
                },
            ),
    {
        let size: u64 = self.size(id);
        let n: &Node = self.node_ref(id);
        Ok(Stat { ino: n.ino, size, file_type: n.file_type, mtime: n.mtime, mode: n.mode })
    }

    pub fn size(&self, id: u64) -> (r: u64)
        requires
            self.has_node(id),
        ensures
            r == crate::tmpfs::volume::body_len(self.node(id).body) as u64,
    {
        match &self.node_ref(id).body {
            Body::File(v) => v.len() as u64,
            Body::Symlink(v) => v.len() as u64,
            _ => 0,
        }
    }

    pub fn ino(&self, id: u64) -> (r: u64)
        requires
            self.has_node(id),
        ensures
            r == self.node(id).ino,
    {
        self.node_ref(id).ino
    }

    pub fn file_type(&self, id: u64) -> (r: FileType)
        requires
            self.has_node(id),
        ensures
            r == self.node(id).file_type,
    {
        self.node_ref(id).file_type
    }

    /// The target of a link, as text.
    pub fn readlink(&self, id: u64) -> (r: Result<String, VfsError>)
        requires
            self.has_node(id),
        ensures
            match self.node(id).body {
                BodyView::Symlink(v) => {
                    &&& r is Ok
                    &&& r->Ok_0@ == crate::text::utf8_lossy(v)
                    &&& vstd::utf8::valid_utf8(v) ==> r->Ok_0@ == vstd::utf8::decode_utf8(v)
                },
                _ => r == Err::<String, VfsError>(VfsError::InvalidInput),
            },
    {
        match &self.node_ref(id).body {
            Body::Symlink(v) => Ok(crate::text::from_bytes_lossy(v)),
            _ => Err(VfsError::InvalidInput),
        }
    }

    /// Sets the time of a node.
    pub fn utimens(&mut self, id: u64, mtime: u64) -> (r: Result<(), VfsError>)
        requires
            old(self).inv(),
            old(self).has_node(id),
        ensures
            final(self).inv(),
            r is Ok,
            final(self)@ == crate::tmpfs::volume::with_node(
                old(self)@,
                id,
                NodeView { mtime, ..old(self).node(id) },
            ),
    {
        let ghost before = self@;
        let mut n: Node = self.take_node(id);
        n.mtime = mtime;
        let ghost view = n@;
        self.put_node(id, n);
        proof {
            assert(view =~= (NodeView { mtime, ..crate::tmpfs::volume::node_at(before, id) }));
            assert(self@ =~= crate::tmpfs::volume::with_node(before, id, view));
            crate::tmpfs::volume::lemma_totals_update(before, id as int, Some(view));
        }
        Ok(())
    }

    /// Sets the permissions of a node.
    pub fn chmod(&mut self, id: u64, mode: u32, now: u64) -> (r: Result<(), VfsError>)
        requires
            old(self).inv(),
            old(self).has_node(id),
        ensures
            final(self).inv(),
            r is Ok,
            final(self)@ == crate::tmpfs::volume::with_node(
                old(self)@,
                id,
                NodeView { mode: mode & 0o7777, mtime: now, ..old(self).node(id) },
            ),
    {
        let ghost before = self@;
        let mut n: Node = self.take_node(id);
        n.mode = mode & 0o7777;
        n.mtime = now;
        let ghost view = n@;
        self.put_node(id, n);
        proof {
            assert(view =~= (NodeView {
                mode: mode & 0o7777,
                mtime: now,
                ..crate::tmpfs::volume::node_at(before, id)
            }));
            assert(self@ =~= crate::tmpfs::volume::with_node(before, id, view));
            crate::tmpfs::volume::lemma_totals_update(before, id as int, Some(view));
        }
        Ok(())
    }

    /// Nodes have no owner; only the time changes.
    pub fn chown(&mut self, id: u64, _uid: u32, _gid: u32, now: u64) -> (r: Result<(), VfsError>)
        requires
            old(self).inv(),
            old(self).has_node(id),
        ensures
            final(self).inv(),
            r is Ok,
            final(self)@ == crate::tmpfs::volume::with_node(
                old(self)@,
                id,
                NodeView { mtime: now, ..old(self).node(id) },
            ),
    {
        self.utimens(id, now)
    }

    /// The sizes of the file system.
    pub fn statfs(&self) -> (r: Result<StatFs, VfsError>)
        requires
            self.inv(),
        ensures
            r == Ok::<StatFs, VfsError>(
                StatFs {
                    block_size: 4096,
                    total_blocks: TMPFS_BUDGET / 4096,
                    free_blocks: ((TMPFS_BUDGET - self.used) / 4096) as u64,
                },
            ),
    {
        Ok(
            StatFs {
                block_size: 4096,
                total_blocks: TMPFS_BUDGET / 4096,
                free_blocks: (TMPFS_BUDGET - self.used) / 4096,
            },
        )
    }

    pub fn sync_fs(&self) -> (r: Result<(), VfsError>)
        ensures
            r is Ok,
    {
        Ok(())
    }
}

/// A file system that holds no more than an empty root directory, which `root` is a
/// handle on.
pub open spec fn is_new(vol: TmpfsVolume, root: u64) -> bool {
    &&& vol.used == 0
    &&& root == 0
    &&& vol@ == seq![
        Some(
            NodeView {
                ino: ROOT_INO,
                file_type: FileType::Directory,
                body: BodyView::Dir(Map::empty()),
                mtime: 0,
                mode: 0o755,
                refs: 1,
            },
        ),
    ]
}

/// The file system in memory.
pub struct Tmpfs;

impl Tmpfs {
    pub fn name(&self) -> (r: &str)
        ensures
            r@ == "tmpfs"@,
    {
        "tmpfs"
    }

    /// Makes a file system with an empty root directory, and a handle on it.
    pub fn mount(&self) -> (r: (TmpfsVolume, u64))
        ensures
            r.0.inv(),
            is_new(r.0, r.1),
    {
        let root = Node {
            ino: ROOT_INO,
            file_type: FileType::Directory,
            body: Body::Dir(ChildMap::new()),
            mtime: 0,
            mode: 0o755,
            refs: 1,
        };
        let ghost view = root@;
        let mut nodes: Vec<Option<Node>> = Vec::new();
        nodes.push(Some(root));
        let vol = TmpfsVolume { nodes, used: 0 };
        proof {
            assert(view =~= (NodeView {
                ino: ROOT_INO,
                file_type: FileType::Directory,
                body: BodyView::Dir(Map::empty()),
                mtime: 0,
                mode: 0o755,
                refs: 1,
            }));
            assert(vol@ =~= seq![Some(view)]);
            reveal_with_fuel(crate::tmpfs::volume::total_len, 2);
        }
        (vol, 0)
    }
}

} // verus!
