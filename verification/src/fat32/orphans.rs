//! Files whose name is gone while handles are open on them. Their clusters belong to
//! the handles together, and are freed once: when the last handle is closed.

use vstd::prelude::*;

use crate::collections;
use crate::collections::LbaSet;
use crate::fat32::superblock::EOC_MARKER;

verus! {

/// A file without a name.
pub struct Orphan {
    /// The handles that are open on it.
    pub handles: Vec<u64>,
    /// The first cluster of the chain that was freed together with the name, or 0.
    pub freed: u32,
    /// The first clusters of the chains to be freed with the last handle.
    pub chains: Vec<u32>,
}

pub struct OrphanView {
    pub handles: Seq<u64>,
    pub freed: u32,
    pub chains: Seq<u32>,
}

impl View for Orphan {
    type V = OrphanView;

    open spec fn view(&self) -> OrphanView {
        OrphanView { handles: self.handles@, freed: self.freed, chains: self.chains@ }
    }
}

/// The handles whose name is gone, and the files that they are open on.
pub struct Unlinked {
    pub handles: LbaSet,
    pub files: Vec<Orphan>,
}

/// Where the file is that handle `h` is open on.
pub open spec fn orphan_of(s: Seq<OrphanView>, h: u64, from: int) -> Option<int>
    decreases s.len() - from,
{
    if from < 0 || from >= s.len() {
        None
    } else if s[from].handles.contains(h) {
        Some(from)
    } else {
        orphan_of(s, h, from + 1)
    }
}

/// A chain can start at cluster `c`.
pub open spec fn starts_chain(c: u32) -> bool {
    2 <= c < EOC_MARKER
}

/// The chains to be freed, once the one from `c` on is among them, unless it is free
/// already.
pub open spec fn with_chain(chains: Seq<u32>, freed: u32, c: u32) -> Seq<u32> {
    if !starts_chain(c) || c == freed || chains.contains(c) {
        chains
    } else {
        chains.push(c)
    }
}

pub open spec fn other_than(h: u64) -> spec_fn(u64) -> bool {
    |x: u64| x != h
}

/// The handles but for `h`.
pub open spec fn without(handles: Seq<u64>, h: u64) -> Seq<u64> {
    handles.filter(other_than(h))
}

/// What is left of the files once handle `h`, whose chain starts at `c`, is closed, and the
/// chains that are to be freed then.
pub open spec fn after_leaving(s: Seq<OrphanView>, h: u64, c: u32) -> (Seq<OrphanView>, Seq<u32>) {
    match orphan_of(s, h, 0) {
        None => (s, with_chain(Seq::empty(), 0, c)),
        Some(i) => {
            let rest = without(s[i].handles, h);
            let chains = with_chain(s[i].chains, s[i].freed, c);
            if rest.len() == 0 {
                (s.remove(i), chains)
            } else {
                (
                    s.update(i, OrphanView { handles: rest, freed: s[i].freed, chains }),
                    Seq::empty(),
                )
            }
        },
    }
}

fn has_handle(v: &Vec<u64>, h: u64) -> (r: bool)
    ensures
        r == v@.contains(h),
{
    let mut i: usize = 0;
    while i < v.len()
        invariant
            i <= v@.len(),
            forall|k: int| 0 <= k < i ==> v@[k] != h,
        decreases v@.len() - i,
    {
        if v[i] == h {
            assert(v@[i as int] == h);
            return true;
        }
        i = i + 1;
    }
    false
}

fn has_chain(v: &Vec<u32>, c: u32) -> (r: bool)
    ensures
        r == v@.contains(c),
{
    let mut i: usize = 0;
    while i < v.len()
        invariant
            i <= v@.len(),
            forall|k: int| 0 <= k < i ==> v@[k] != c,
        decreases v@.len() - i,
    {
        if v[i] == c {
            assert(v@[i as int] == c);
            return true;
        }
        i = i + 1;
    }
    false
}

impl Orphan {
    /// Takes handle `h`, whose chain starts at `c`, off the file.
    fn leave(&mut self, h: u64, c: u32)
        ensures
            final(self)@ == (OrphanView {
                handles: without(old(self).handles@, h),
                freed: old(self).freed,
                chains: with_chain(old(self).chains@, old(self).freed, c),
            }),
    {
        let mut rest: Vec<u64> = Vec::new();
        let mut i: usize = 0;
        let ghost f = other_than(h);
        assert(self.handles@.take(0).filter(f) =~= Seq::<u64>::empty()) by {
            reveal(Seq::filter);
        }
        while i < self.handles.len()
            invariant
                i <= self.handles@.len(),
                f == other_than(h),
                *self == *old(self),
                rest@ == self.handles@.take(i as int).filter(f),
            decreases self.handles@.len() - i,
        {
            let ghost v = self.handles@;
            assert(v.take(i + 1).drop_last() =~= v.take(i as int));
            assert(v.take(i + 1).filter(f) == (if f(v[i as int]) {
                v.take(i as int).filter(f).push(v[i as int])
            } else {
                v.take(i as int).filter(f)
            })) by {
                reveal(Seq::filter);
            }
            if self.handles[i] != h {
                rest.push(self.handles[i]);
            }
            i = i + 1;
        }
        assert(self.handles@.take(i as int) =~= self.handles@);
        self.handles = rest;
        if c >= 2 && c < EOC_MARKER && c != self.freed && !has_chain(&self.chains, c) {
            self.chains.push(c);
        }
    }
}

impl Unlinked {
    pub open spec fn views(self) -> Seq<OrphanView> {
        Seq::new(self.files@.len(), |i: int| self.files@[i]@)
    }

    pub fn new() -> (r: Self)
        ensures
            collections::lba_set(r.handles) == Set::<u64>::empty(),
            r.views() == Seq::<OrphanView>::empty(),
    {
        let r = Unlinked { handles: LbaSet::new(), files: Vec::new() };
        assert(r.views() =~= Seq::<OrphanView>::empty());
        r
    }

    /// A file has lost its name while `handles` are open on it. The chain from `freed` on,
    /// if that is not 0, is freed with the name.
    pub fn put(&mut self, handles: Vec<u64>, freed: u32)
        ensures
            final(self).handles == old(self).handles,
            final(self).views() == old(self).views().push(
                OrphanView { handles: handles@, freed, chains: Seq::empty() },
            ),
    {
        let file = Orphan { handles, freed, chains: Vec::new() };
        assert(file.chains@ =~= Seq::<u32>::empty());
        self.files.push(file);
        assert(self.views() =~= old(self).views().push(
            OrphanView { handles: handles@, freed, chains: Seq::empty() },
        ));
    }

    /// Takes handle `h`, whose chain starts at `c`, off its file. Returns the first clusters
    /// of the chains that no handle holds any more.
    pub fn leave(&mut self, h: u64, c: u32) -> (r: Vec<u32>)
        ensures
            final(self).handles == old(self).handles,
            (final(self).views(), r@) == after_leaving(old(self).views(), h, c),
    {
        let ghost s = self.views();
        let mut i: usize = 0;
        while i < self.files.len() && !has_handle(&self.files[i].handles, h)
            invariant
                i <= self.files@.len(),
                *self == *old(self),
                s == self.views(),
                orphan_of(s, h, 0) == orphan_of(s, h, i as int),
            decreases self.files@.len() - i,
        {
            assert(s[i as int] == self.files@[i as int]@);
            i = i + 1;
        }
        if i >= self.files.len() {
            let mut due: Vec<u32> = Vec::new();
            if c >= 2 && c < EOC_MARKER {
                due.push(c);
            }
            assert(due@ =~= with_chain(Seq::empty(), 0, c));
            return due;
        }
        assert(s[i as int] == self.files@[i as int]@);
        let mut file: Orphan = self.files.remove(i);
        let ghost mid = self.files@;
        file.leave(h, c);
        if file.handles.len() == 0 {
            assert(self.views() =~= s.remove(i as int));
            return file.chains;
        }
        let ghost v = file@;
        self.files.insert(i, file);
        assert(self.views() =~= s.update(i as int, v));
        Vec::new()
    }
}

/// What is left of the files once the first `n` handles of `order`, whose chain starts at
/// `c`, are closed, and the chains that are to be freed by then.
pub open spec fn after_closing(s: Seq<OrphanView>, order: Seq<u64>, c: u32, n: int) -> (
    Seq<OrphanView>,
    Seq<u32>,
)
    decreases n,
{
    if n <= 0 {
        (s, Seq::empty())
    } else {
        let (left, due) = after_closing(s, order, c, n - 1);
        let (rest, more) = after_leaving(left, order[n - 1], c);
        (rest, due + more)
    }
}

/// `order` are the handles of file `i`, and no other file has one of them.
pub open spec fn all_of(s: Seq<OrphanView>, i: int, order: Seq<u64>) -> bool {
    &&& 0 <= i < s.len()
    &&& order.len() > 0
    &&& order.no_duplicates()
    &&& forall|h: u64| #[trigger] s[i].handles.contains(h) <==> order.contains(h)
    &&& forall|j: int, h: u64|
        0 <= j < s.len() && j != i && order.contains(h) ==> !#[trigger] s[j].handles.contains(h)
}

/// `t` is `s` once the first `n` handles of file `i` are closed.
spec fn closed_in_part(
    t: Seq<OrphanView>,
    s: Seq<OrphanView>,
    i: int,
    order: Seq<u64>,
    c: u32,
    n: int,
) -> bool {
    &&& t.len() == s.len()
    &&& forall|j: int| 0 <= j < s.len() && j != i ==> #[trigger] t[j] == s[j]
    &&& t[i].freed == s[i].freed
    &&& t[i].chains == (if n == 0 {
        s[i].chains
    } else {
        with_chain(s[i].chains, s[i].freed, c)
    })
    &&& forall|h: u64| #[trigger]
        t[i].handles.contains(h) <==> order.skip(n).contains(h)
}

proof fn lemma_orphan_of(t: Seq<OrphanView>, h: u64, i: int, from: int)
    requires
        0 <= from <= i < t.len(),
        t[i].handles.contains(h),
        forall|j: int| 0 <= j < i ==> !#[trigger] t[j].handles.contains(h),
    ensures
        orphan_of(t, h, from) == Some(i),
    decreases i - from,
{
    if from < i {
        lemma_orphan_of(t, h, i, from + 1);
    }
}

proof fn lemma_without(v: Seq<u64>, h: u64, x: u64)
    ensures
        without(v, h).contains(x) <==> v.contains(x) && x != h,
{
    let f = other_than(h);
    if v.contains(x) && x != h {
        let k = choose|k: int| 0 <= k < v.len() && v[k] == x;
        v.lemma_filter_contains(f, k);
    }
    if without(v, h).contains(x) {
        v.lemma_filter_contains_rev(f, x);
        let k = choose|k: int| 0 <= k < without(v, h).len() && without(v, h)[k] == x;
        v.lemma_filter_pred(f, k);
    }
}

proof fn lemma_close_one(
    t: Seq<OrphanView>,
    s: Seq<OrphanView>,
    i: int,
    order: Seq<u64>,
    c: u32,
    n: int,
)
    requires
        all_of(s, i, order),
        0 <= n < order.len(),
        closed_in_part(t, s, i, order, c, n),
    ensures
        ({
            let (u, due) = after_leaving(t, order[n], c);
            if n + 1 < order.len() {
                due.len() == 0 && closed_in_part(u, s, i, order, c, n + 1)
            } else {
                due == with_chain(s[i].chains, s[i].freed, c) && u == s.remove(i)
            }
        }),
{
    let h = order[n];
    let rest = without(t[i].handles, h);
    assert(order.skip(n)[0] == h);
    assert(order.contains(h));
    lemma_orphan_of(t, h, i, 0);
    assert forall|x: u64| #[trigger] rest.contains(x) <==> order.skip(n + 1).contains(x) by {
        lemma_without(t[i].handles, h, x);
        if order.skip(n).contains(x) && x != h {
            let k = choose|k: int| 0 <= k < order.skip(n).len() && order.skip(n)[k] == x;
            assert(order.skip(n + 1)[k - 1] == x);
        }
        let tail = order.skip(n + 1);
        if tail.contains(x) {
            let k = choose|k: int| 0 <= k < tail.len() && tail[k] == x;
            assert(order.skip(n)[k + 1] == x);
            assert(order[n + 1 + k] == x);
        }
    }
    let chains = with_chain(s[i].chains, s[i].freed, c);
    assert(with_chain(chains, s[i].freed, c) == chains) by {
        if chains != s[i].chains {
            assert(chains.last() == c);
        }
    }
    if n + 1 < order.len() {
        assert(order.skip(n + 1)[0] == order[n + 1]);
        assert(rest.contains(order[n + 1]));
    } else {
        if rest.len() > 0 {
            assert(rest.contains(rest[0]));
        }
        assert(t.remove(i) =~= s.remove(i));
    }
}

/// In whatever order the handles on a file without a name are closed, the clusters are
/// not freed as long as one of them is open, and are freed once with the last, unless
/// they were freed together with the name.
pub proof fn law_freed_with_the_last(
    s: Seq<OrphanView>,
    i: int,
    order: Seq<u64>,
    c: u32,
    n: int,
)
    requires
        all_of(s, i, order),
        s[i].chains.len() == 0,
        starts_chain(c),
        0 <= n <= order.len(),
    ensures
        n < order.len() ==> after_closing(s, order, c, n).1.len() == 0,
        n == order.len() ==> after_closing(s, order, c, n) == (
            s.remove(i),
            if c == s[i].freed {
                Seq::<u32>::empty()
            } else {
                seq![c]
            },
        ),
{
    if n > 0 {
        lemma_closed_in_part(s, i, order, c, n - 1);
        let (t, due) = after_closing(s, order, c, n - 1);
        lemma_close_one(t, s, i, order, c, n - 1);
        let (u, more) = after_leaving(t, order[n - 1], c);
        assert(due + more =~= more);
        assert(s[i].chains =~= Seq::<u32>::empty());
        assert(Seq::<u32>::empty().push(c) =~= seq![c]);
    }
}

proof fn lemma_closed_in_part(s: Seq<OrphanView>, i: int, order: Seq<u64>, c: u32, n: int)
    requires
        all_of(s, i, order),
        0 <= n < order.len(),
    ensures
        ({
            let (t, due) = after_closing(s, order, c, n);
            due.len() == 0 && closed_in_part(t, s, i, order, c, n)
        }),
    decreases n,
{
    if n == 0 {
        assert(order.skip(0) =~= order);
    } else {
        lemma_closed_in_part(s, i, order, c, n - 1);
        let (t, due) = after_closing(s, order, c, n - 1);
        lemma_close_one(t, s, i, order, c, n - 1);
    }
}

} // verus!
