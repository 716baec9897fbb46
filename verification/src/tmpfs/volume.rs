//! The table of nodes, references and the budget.

use crate::collections::ChildMap;
use crate::vfs::FileType;
use vstd::prelude::*;

verus! {

/// Bytes that a file system holds, at most.
pub const TMPFS_BUDGET: u64 = 67_108_864;

/// The number of a root directory.
pub const ROOT_INO: u64 = 1;

/// Hands out inode numbers. All file systems share one.
pub struct InoCounter {
    pub next: u64,
}

impl InoCounter {
    pub fn new() -> (r: Self)
        ensures
            r.next == 2,
    {
        InoCounter { next: 2 }
    }

    pub fn take(&mut self) -> (r: u64)
        ensures
            r == old(self).next,
            final(self).next == old(self).next.wrapping_add(1),
    {
        let n: u64 = self.next;
        self.next = n.wrapping_add(1);
        n
    }
}

/// What a node holds.
pub enum Body {
    File(Vec<u8>),
    Dir(ChildMap),
    /// The target of a link: any bytes, not only text.
    Symlink(Vec<u8>),
    Fifo,
}

#[verifier::ext_equal]
pub enum BodyView {
    File(Seq<u8>),
    Dir(Map<Seq<char>, u64>),
    Symlink(Seq<u8>),
    Fifo,
}

impl View for Body {
    type V = BodyView;

    open spec fn view(&self) -> BodyView {
        match self {
            Body::File(v) => BodyView::File(v@),
            Body::Dir(m) => BodyView::Dir(crate::collections::child_map(*m)),
            Body::Symlink(v) => BodyView::Symlink(v@),
            Body::Fifo => BodyView::Fifo,
        }
    }
}

/// A node of the file system.
pub struct Node {
    pub ino: u64,
    pub file_type: FileType,
    pub body: Body,
    pub mtime: u64,
    pub mode: u32,
    /// How many names and handles refer to it.
    pub refs: u64,
}

#[verifier::ext_equal]
pub struct NodeView {
    pub ino: u64,
    pub file_type: FileType,
    pub body: BodyView,
    pub mtime: u64,
    pub mode: u32,
    pub refs: u64,
}

impl View for Node {
    type V = NodeView;

    open spec fn view(&self) -> NodeView {
        NodeView {
            ino: self.ino,
            file_type: self.file_type,
            body: self.body@,
            mtime: self.mtime,
            mode: self.mode,
            refs: self.refs,
        }
    }
}

/// The bytes that a body holds.
pub open spec fn body_len(b: BodyView) -> nat {
    match b {
        BodyView::File(v) => v.len(),
        BodyView::Symlink(v) => v.len(),
        _ => 0,
    }
}

pub open spec fn node_len(n: Option<NodeView>) -> nat {
    match n {
        Some(v) => body_len(v.body),
        None => 0,
    }
}

/// A node counts with its references.
pub open spec fn node_weight(n: Option<NodeView>) -> nat {
    match n {
        Some(v) => (v.refs + 1) as nat,
        None => 0,
    }
}

/// The bytes that all nodes hold together.
pub open spec fn total_len(nodes: Seq<Option<NodeView>>) -> nat
    decreases nodes.len(),
{
    if nodes.len() == 0 {
        0
    } else {
        total_len(nodes.drop_last()) + node_len(nodes.last())
    }
}

/// All nodes with all their references.
pub open spec fn total_weight(nodes: Seq<Option<NodeView>>) -> nat
    decreases nodes.len(),
{
    if nodes.len() == 0 {
        0
    } else {
        total_weight(nodes.drop_last()) + node_weight(nodes.last())
    }
}

/// What changes in one node changes the sums by as much.
pub proof fn lemma_totals_update(nodes: Seq<Option<NodeView>>, k: int, n: Option<NodeView>)
    requires
        0 <= k < nodes.len(),
    ensures
        total_len(nodes.update(k, n)) == total_len(nodes) - node_len(nodes[k]) + node_len(n),
        total_weight(nodes.update(k, n)) == total_weight(nodes) - node_weight(nodes[k]) + node_weight(n),
        total_len(nodes) >= node_len(nodes[k]),
        total_weight(nodes) >= node_weight(nodes[k]),
    decreases nodes.len(),
{
    let after = nodes.update(k, n);
    if k == nodes.len() - 1 {
        assert(after.drop_last() =~= nodes.drop_last());
    } else {
        lemma_totals_update(nodes.drop_last(), k, n);
        assert(after.drop_last() =~= nodes.drop_last().update(k, n));
    }
}

pub proof fn lemma_totals_push(nodes: Seq<Option<NodeView>>, n: Option<NodeView>)
    ensures
        total_len(nodes.push(n)) == total_len(nodes) + node_len(n),
        total_weight(nodes.push(n)) == total_weight(nodes) + node_weight(n),
{
    assert(nodes.push(n).drop_last() =~= nodes);
}

/// A file system.
pub struct TmpfsVolume {
    pub nodes: Vec<Option<Node>>,
    /// The bytes that are in use.
    pub used: u64,
}

impl View for TmpfsVolume {
    type V = Seq<Option<NodeView>>;

    open spec fn view(&self) -> Seq<Option<NodeView>> {
        Seq::new(
            self.nodes@.len(),
            |i: int|
                match self.nodes@[i] {
                    Some(n) => Some(n@),
                    None => None,
                },
        )
    }
}

/// The node with number `id` is there.
pub open spec fn live(nodes: Seq<Option<NodeView>>, id: u64) -> bool {
    id < nodes.len() && nodes[id as int] is Some
}

/// The node with number `id`.
pub open spec fn node_at(nodes: Seq<Option<NodeView>>, id: u64) -> NodeView {
    nodes[id as int]->0
}

/// The table with another node at `id`.
pub open spec fn with_node(nodes: Seq<Option<NodeView>>, id: u64, n: NodeView) -> Seq<
    Option<NodeView>,
> {
    nodes.update(id as int, Some(n))
}

impl TmpfsVolume {
    /// What is in use is what the nodes hold, and keeps to the budget.
    pub open spec fn inv(self) -> bool {
        &&& self.used == total_len(self@)
        &&& self.used <= TMPFS_BUDGET
    }

    /// The node with number `id` is there.
    pub open spec fn has_node(self, id: u64) -> bool {
        live(self@, id)
    }

    /// Whether the node with number `id` is there.
    pub fn is_live(&self, id: u64) -> (r: bool)
        ensures
            r == self.has_node(id),
    {
        if id >= self.nodes.len() as u64 {
            return false;
        }
        self.nodes[id as usize].is_some()
    }

    /// Takes a node out of the table, to be put back.
    pub(crate) fn take_node(&mut self, id: u64) -> (r: Node)
        requires
            live(old(self)@, id),
        ensures
            r@ == node_at(old(self)@, id),
            final(self)@ == old(self)@.update(id as int, None),
            final(self).used == old(self).used,
            final(self).nodes@.len() == old(self).nodes@.len(),
    {
        let mut slot: Option<Node> = None;
        assert(self.nodes@.len() == self.nodes.len());
        let i: usize = id as usize;
        let ghost before = self.nodes@;
        std::mem::swap(&mut slot, &mut self.nodes[i]);
        assert(self.nodes@ =~= before.update(i as int, None));
        assert(self@ =~= old(self)@.update(id as int, None));
        match slot {
            Some(n) => n,
            None => {
                assert(false);
                vstd::pervasive::unreached()
            },
        }
    }

    /// Puts a node into the table.
    pub(crate) fn put_node(&mut self, id: u64, n: Node)
        requires
            id < old(self).nodes@.len(),
        ensures
            final(self)@ == with_node(old(self)@, id, n@),
            final(self).used == old(self).used,
            final(self).nodes@.len() == old(self).nodes@.len(),
    {
        assert(self.nodes@.len() == self.nodes.len());
        self.nodes.set(id as usize, Some(n));
        assert(self@ =~= with_node(old(self)@, id, n@));
    }
}

/// The table once one reference to the node `id` is gone: a node that nothing
/// refers to any more is gone, too.
pub open spec fn one_less(nodes: Seq<Option<NodeView>>, id: u64) -> Seq<Option<NodeView>> {
    if !live(nodes, id) {
        nodes
    } else if node_at(nodes, id).refs <= 1 {
        nodes.update(id as int, None)
    } else {
        with_node(
            nodes,
            id,
            NodeView { refs: (node_at(nodes, id).refs - 1) as u64, ..node_at(nodes, id) },
        )
    }
}

/// `order` lists the nodes that the names of a directory refer to, each as often as
/// it is named.
pub open spec fn lists_children(order: Seq<u64>, m: Map<Seq<char>, u64>) -> bool {
    exists|names: Seq<Seq<char>>| #[trigger] enumerates(names, m) && order == Seq::new(
        names.len(),
        |i: int| m[names[i]],
    )
}

/// `names` are the names in `m`, each once.
pub open spec fn enumerates(names: Seq<Seq<char>>, m: Map<Seq<char>, u64>) -> bool {
    &&& names.no_duplicates()
    &&& forall|i: int| 0 <= i < names.len() ==> m.contains_key(#[trigger] names[i])
    &&& forall|n: Seq<char>| #[trigger] m.contains_key(n) ==> names.contains(n)
}

/// References that are still to be given up, and the table.
#[verifier::ext_equal]
pub struct Dropping {
    pub nodes: Seq<Option<NodeView>>,
    pub pending: Seq<u64>,
}

/// One pending reference has been given up. A directory that is gone with it gives
/// up the references of its names.
pub open spec fn dropped_one(a: Dropping, b: Dropping) -> bool {
    let id = a.pending.last();
    let rest = a.pending.drop_last();
    &&& a.pending.len() > 0
    &&& b.nodes == one_less(a.nodes, id)
    &&& if live(a.nodes, id) && node_at(a.nodes, id).refs <= 1 && node_at(a.nodes, id).body is Dir {
        exists|order: Seq<u64>| #[trigger]
            lists_children(order, node_at(a.nodes, id).body->Dir_0) && b.pending == rest + order
    } else {
        b.pending == rest
    }
}

/// All references at `pending`, and all that follow from them, have been given up.
pub open spec fn all_dropped(
    nodes: Seq<Option<NodeView>>,
    pending: Seq<u64>,
    after: Seq<Option<NodeView>>,
) -> bool {
    exists|steps: Seq<Dropping>| #[trigger]
        is_dropping(steps) && steps[0] == (Dropping { nodes, pending }) && steps.last().nodes
            == after && steps.last().pending.len() == 0
}

/// The steps follow one another.
pub open spec fn is_dropping(steps: Seq<Dropping>) -> bool {
    steps.len() > 0 && forall|i: int| 0 <= i < steps.len() - 1 ==> #[trigger] drops_at(steps, i)
}

pub open spec fn drops_at(steps: Seq<Dropping>, i: int) -> bool {
    dropped_one(steps[i], steps[i + 1])
}

/// Nothing is left to give up.
pub proof fn lemma_nothing_dropped(nodes: Seq<Option<NodeView>>)
    ensures
        all_dropped(nodes, Seq::empty(), nodes),
{
    let steps = seq![Dropping { nodes, pending: Seq::empty() }];
    assert(is_dropping(steps));
}

/// Whatever is given up, the bytes in use can only become fewer.
pub proof fn lemma_one_less(nodes: Seq<Option<NodeView>>, id: u64)
    ensures
        one_less(nodes, id).len() == nodes.len(),
        total_len(one_less(nodes, id)) <= total_len(nodes),
        live(nodes, id) ==> total_weight(one_less(nodes, id)) < total_weight(nodes),
{
    if live(nodes, id) {
        let n = node_at(nodes, id);
        if n.refs <= 1 {
            lemma_totals_update(nodes, id as int, None);
        } else {
            lemma_totals_update(
                nodes,
                id as int,
                Some(NodeView { refs: (n.refs - 1) as u64, ..n }),
            );
        }
    }
}

fn children_of(m: &ChildMap) -> (r: Vec<u64>)
    ensures
        lists_children(r@, crate::collections::child_map(*m)),
{
    let names: Vec<String> = m.names();
    let ghost map = crate::collections::child_map(*m);
    let ghost shown: Seq<Seq<char>> = Seq::new(names@.len(), |i: int| names@[i]@);
    let mut out: Vec<u64> = Vec::new();
    let mut i: usize = 0;
    while i < names.len()
        invariant
            i <= names@.len(),
            map == crate::collections::child_map(*m),
            shown == Seq::new(names@.len(), |i: int| names@[i]@),
            out@.len() == i,
            forall|k: int| 0 <= k < names@.len() ==> map.contains_key((#[trigger] names@[k])@),
            forall|k: int| 0 <= k < i ==> #[trigger] out@[k] == map[shown[k]],
        decreases names@.len() - i,
    {
        assert(map.contains_key(names@[i as int]@));
        match m.get(names[i].as_str()) {
            Some(id) => out.push(id),
            None => {
                assert(false);
            },
        }
        i = i + 1;
    }
    proof {
        assert(enumerates(shown, map)) by {
            assert forall|a: int, b: int|
                0 <= a < shown.len() && 0 <= b < shown.len() && a != b implies shown[a]
                != shown[b] by {
                assert(names@[a]@ != names@[b]@);
            }
            assert forall|k: int| 0 <= k < shown.len() implies map.contains_key(
                #[trigger] shown[k],
            ) by {
                assert(map.contains_key(names@[k]@));
            }
            assert forall|n: Seq<char>| #[trigger] map.contains_key(n) implies shown.contains(
                n,
            ) by {
                let k = choose|k: int| 0 <= k < names@.len() && (#[trigger] names@[k])@ == n;
                assert(shown[k] == n);
            }
        }
        assert(out@ =~= Seq::new(shown.len(), |k: int| map[shown[k]]));
    }
    out
}

impl TmpfsVolume {
    /// Gives up one reference to a node: the references that this gives up in turn.
    fn drop_one(&mut self, id: u64) -> (r: Vec<u64>)
        requires
            old(self).inv(),
        ensures
            final(self).inv(),
            final(self)@ == one_less(old(self)@, id),
            if live(old(self)@, id) && node_at(old(self)@, id).refs <= 1 && node_at(
                old(self)@,
                id,
            ).body is Dir {
                lists_children(r@, node_at(old(self)@, id).body->Dir_0)
            } else {
                r@.len() == 0
            },
    {
        if !self.is_live(id) {
            return Vec::new();
        }
        let ghost before = self@;
        let mut n: Node = self.take_node(id);
        if n.refs > 1 {
            n.refs = n.refs - 1;
            let ghost view = n@;
            self.put_node(id, n);
            proof {
                assert(self@ =~= one_less(before, id));
                lemma_totals_update(before, id as int, Some(view));
            }
            return Vec::new();
        }
        proof {
            lemma_totals_update(before, id as int, None);
            assert(self@ =~= one_less(before, id));
        }
        match n.body {
            Body::File(v) => {
                self.used = self.used - v.len() as u64;
                Vec::new()
            },
            Body::Symlink(v) => {
                self.used = self.used - v.len() as u64;
                Vec::new()
            },
            Body::Dir(m) => children_of(&m),
            Body::Fifo => Vec::new(),
        }
    }

    /// Gives up a reference to a node, and all that follow from it.
    pub(crate) fn drop_ref(&mut self, id: u64)
        requires
            old(self).inv(),
        ensures
            final(self).inv(),
            all_dropped(old(self)@, seq![id], final(self)@),
    {
        let mut pending: Vec<u64> = Vec::new();
        pending.push(id);
        assert(pending@ =~= seq![id]);
        let ghost mut steps: Seq<Dropping> = seq![Dropping { nodes: self@, pending: pending@ }];
        assert(is_dropping(steps));
        while pending.len() > 0
            invariant
                self.inv(),
                is_dropping(steps),
                steps[0] == (Dropping { nodes: old(self)@, pending: seq![id] }),
                steps.last() == (Dropping { nodes: self@, pending: pending@ }),
            decreases total_weight(self@), pending@.len(),
        {
            let ghost before = Dropping { nodes: self@, pending: pending@ };
            let last: usize = pending.len() - 1;
            let next: u64 = pending[last];
            pending.truncate(last);
            let ghost rest = pending@;
            assert(rest =~= before.pending.drop_last());
            if self.is_live(next) {
                proof {
                    lemma_one_less(self@, next);
                }
            }
            let mut more: Vec<u64> = self.drop_one(next);
            let ghost order = more@;
            pending.append(&mut more);
            proof {
                let after = Dropping { nodes: self@, pending: pending@ };
                assert(order.len() == 0 ==> pending@ =~= rest);
                assert(dropped_one(before, after));
                let longer = steps.push(after);
                assert forall|i: int| 0 <= i < longer.len() - 1 implies #[trigger] drops_at(
                    longer,
                    i,
                ) by {
                    if i < steps.len() - 1 {
                        assert(drops_at(steps, i));
                    }
                }
                steps = longer;
            }
        }
    }
}

} // verus!
