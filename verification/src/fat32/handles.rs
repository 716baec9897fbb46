//! Inode numbers, and the handles that are open on names.

use vstd::prelude::*;

use crate::blockdriver::traits::BlockDevice;
use crate::collections;
use crate::fat32::orphans;
use crate::fat32::superblock::Fat32SuperBlock;
use crate::text;
use crate::text::to_lower;

verus! {

/// The elements of `v` that are in `open`, in their order.
pub open spec fn live(v: Seq<u64>, open: Set<u64>) -> Seq<u64> {
    v.filter(|h: u64| open.contains(h))
}

/// The inode numbers, and the next one, once a place has one: the one given before, or
/// else the next one.
pub open spec fn give_number(
    inos: Map<(u32, Seq<char>), u64>,
    next: u64,
    place: (u32, Seq<char>),
) -> (Map<(u32, Seq<char>), u64>, u64) {
    if inos.contains_key(place) {
        (inos, next)
    } else {
        (inos.insert(place, next), next.wrapping_add(1))
    }
}

/// The inode numbers, and the next one, once each of the places has one.
pub open spec fn give_numbers(
    inos: Map<(u32, Seq<char>), u64>,
    next: u64,
    places: Seq<(u32, Seq<char>)>,
) -> (Map<(u32, Seq<char>), u64>, u64)
    decreases places.len(),
{
    if places.len() == 0 {
        (inos, next)
    } else {
        let (map, free) = give_numbers(inos, next, places.drop_last());
        give_number(map, free, places.last())
    }
}

/// No two places have the same number, and none has one that is still to be given.
pub open spec fn tells_apart(inos: Map<(u32, Seq<char>), u64>, next: u64) -> bool {
    &&& forall|p: (u32, Seq<char>)| #[trigger] inos.contains_key(p) ==> inos[p] < next
    &&& forall|p: (u32, Seq<char>), q: (u32, Seq<char>)|
        #[trigger] inos.contains_key(p) && #[trigger] inos.contains_key(q) && p != q ==> inos[p]
            != inos[q]
}

/// A place keeps its inode number, whatever other places get one.
pub proof fn law_number_is_kept(
    inos: Map<(u32, Seq<char>), u64>,
    next: u64,
    place: (u32, Seq<char>),
    others: Seq<(u32, Seq<char>)>,
)
    requires
        inos.contains_key(place),
    ensures
        give_numbers(inos, next, others).0.contains_key(place),
        give_numbers(inos, next, others).0[place] == inos[place],
    decreases others.len(),
{
    if others.len() > 0 {
        law_number_is_kept(inos, next, place, others.drop_last());
    }
}

/// Different places have different inode numbers, until the numbers run out.
pub proof fn law_numbers_differ(
    inos: Map<(u32, Seq<char>), u64>,
    next: u64,
    places: Seq<(u32, Seq<char>)>,
)
    requires
        tells_apart(inos, next),
        next + places.len() <= u64::MAX,
    ensures
        tells_apart(give_numbers(inos, next, places).0, give_numbers(inos, next, places).1),
        give_numbers(inos, next, places).1 <= next + places.len(),
    decreases places.len(),
{
    if places.len() > 0 {
        law_numbers_differ(inos, next, places.drop_last());
        let (map, free) = give_numbers(inos, next, places.drop_last());
        let (m, f) = give_number(map, free, places.last());
        assert forall|p: (u32, Seq<char>)| #[trigger] m.contains_key(p) implies m[p] < f by {
            assert(p == places.last() || map.contains_key(p));
        }
        assert forall|p: (u32, Seq<char>), q: (u32, Seq<char>)|
            #[trigger] m.contains_key(p) && #[trigger] m.contains_key(q) && p != q implies m[p]
            != m[q] by {
            assert(p == places.last() || map.contains_key(p));
            assert(q == places.last() || map.contains_key(q));
        }
    }
}

impl<D: BlockDevice> Fat32SuperBlock<D> {
    pub open spec fn inos(self) -> Map<(u32, Seq<char>), u64> {
        collections::ino_map(self.ino_map)
    }

    pub open spec fn handles(self) -> Map<(u32, Seq<char>), Seq<u64>> {
        collections::handle_map(self.handle_registry)
    }

    pub open spec fn open_set(self) -> Set<u64> {
        collections::lba_set(self.open_handles)
    }

    pub open spec fn unlinked_set(self) -> Set<u64> {
        collections::lba_set(self.unlinked_handles.handles)
    }

    /// The files that are open and have no name.
    pub open spec fn orphans(self) -> Seq<orphans::OrphanView> {
        self.unlinked_handles.views()
    }

    /// The handles registered for a place.
    pub open spec fn handles_at(self, parent: u32, name: Seq<char>) -> Seq<u64> {
        let key = (parent, text::lower(name));
        if self.handles().contains_key(key) {
            self.handles()[key]
        } else {
            Seq::empty()
        }
    }

    /// The inode number of a place: the one given before, or else a new one, which is
    /// given to this place from now on. Names that differ in letter case only are one.
    pub fn ino_for(&mut self, parent_clus: u32, name: &str) -> (r: u64)
        ensures
            ({
                let key = (parent_clus, text::lower(name@));
                if old(self).inos().contains_key(key) {
                    r == old(self).inos()[key] && *final(self) == *old(self)
                } else {
                    &&& r == old(self).next_ino
                    &&& final(self).next_ino == old(self).next_ino.wrapping_add(1)
                    &&& final(self).inos() == old(self).inos().insert(key, r)
                    &&& *final(self) == (Fat32SuperBlock {
                        next_ino: final(self).next_ino,
                        ino_map: final(self).ino_map,
                        ..*old(self)
                    })
                }
            }),
            (final(self).inos(), final(self).next_ino) == give_number(
                old(self).inos(),
                old(self).next_ino,
                (parent_clus, text::lower(name@)),
            ),
    {
        let canon: String = to_lower(name);
        match self.ino_map.get(parent_clus, canon.clone()) {
            Some(ino) => {
                return ino;
            },
            None => {},
        }
        let ino: u64 = self.next_ino;
        self.next_ino = ino.wrapping_add(1);
        self.ino_map.insert(parent_clus, canon, ino);
        ino
    }

    /// The handles of `v` that are open.
    fn live_handles(&self, v: &Vec<u64>) -> (r: Vec<u64>)
        ensures
            r@ == live(v@, self.open_set()),
    {
        let mut out: Vec<u64> = Vec::new();
        let mut i: usize = 0;
        let ghost f = |h: u64| self.open_set().contains(h);
        assert(v@.take(0).filter(f) =~= Seq::<u64>::empty()) by {
            reveal(Seq::filter);
        }
        while i < v.len()
            invariant
                i <= v@.len(),
                f == (|h: u64| self.open_set().contains(h)),
                out@ == v@.take(i as int).filter(f),
            decreases v@.len() - i,
        {
            assert(v@.take(i + 1).drop_last() =~= v@.take(i as int));
            assert(v@.take(i + 1).last() == v@[i as int]);
            assert(v@.take(i + 1).filter(f) == (if f(v@[i as int]) {
                v@.take(i as int).filter(f).push(v@[i as int])
            } else {
                v@.take(i as int).filter(f)
            })) by {
                reveal(Seq::filter);
            }
            if self.open_handles.contains(v[i]) {
                out.push(v[i]);
            }
            i = i + 1;
        }
        assert(v@.take(i as int) =~= v@);
        out
    }

    /// Registers an open handle for a place. Handles of that place that are no longer
    /// open are dropped from the registry.
    pub fn register_handle(&mut self, parent_clus: u32, name: &str, handle: u64)
        ensures
            final(self).open_set() == old(self).open_set().insert(handle),
            final(self).handles() == old(self).handles().insert(
                (parent_clus, text::lower(name@)),
                live(old(self).handles_at(parent_clus, name@), old(self).open_set()).push(handle),
            ),
            *final(self) == (Fat32SuperBlock {
                open_handles: final(self).open_handles,
                handle_registry: final(self).handle_registry,
                ..*old(self)
            }),
    {
        let key: String = to_lower(name);
        let before: Vec<u64> = match self.handle_registry.remove(parent_clus, key.clone()) {
            Some(v) => v,
            None => Vec::new(),
        };
        let mut kept: Vec<u64> = self.live_handles(&before);
        kept.push(handle);
        self.handle_registry.insert(parent_clus, key, kept);
        self.open_handles.insert(handle);
        proof {
            let k = (parent_clus, text::lower(name@));
            assert(self.handles() =~= old(self).handles().insert(
                k,
                live(old(self).handles_at(parent_clus, name@), old(self).open_set()).push(handle),
            ));
        }
    }

    /// The handles of a place that are open.
    pub open spec fn open_at(self, parent: u32, name: Seq<char>) -> Seq<u64> {
        live(self.handles_at(parent, name), self.open_set())
    }

    /// From `m`, the handles that are open on a place have lost their name. If `freed` is
    /// not 0, the chain from there on goes with the name.
    pub open spec fn orphaned(self, m: Self, parent: u32, name: Seq<char>, freed: u32) -> bool {
        let open = m.open_at(parent, name);
        &&& self.handles() == m.handles().remove((parent, text::lower(name)))
        &&& forall|h: u64| #[trigger]
            self.unlinked_set().contains(h) <==> m.unlinked_set().contains(h) || open.contains(h)
        &&& self.orphans() == (if open.len() == 0 {
            m.orphans()
        } else {
            m.orphans().push(
                orphans::OrphanView { handles: open, freed, chains: Seq::empty() },
            )
        })
        &&& self == (Fat32SuperBlock {
            unlinked_handles: self.unlinked_handles,
            handle_registry: self.handle_registry,
            ..m
        })
    }

    /// Marks every open handle of a place as unlinked, so that the last of them frees
    /// the clusters, and returns how many there are. With none, the clusters are the
    /// caller's to free.
    pub fn mark_handles_unlinked(&mut self, parent_clus: u32, name: &str) -> (r: usize)
        ensures
            r == old(self).open_at(parent_clus, name@).len(),
            final(self).orphaned(*old(self), parent_clus, name@, 0),
    {
        self.orphan_handles(parent_clus, name, 0)
    }

    /// Marks every open handle of a place as unlinked, and returns how many there are. The
    /// chain from `freed` on, if that is not 0, is the caller's to free, and none of them
    /// frees it a second time.
    pub fn orphan_handles(&mut self, parent_clus: u32, name: &str, freed: u32) -> (r: usize)
        ensures
            r == old(self).open_at(parent_clus, name@).len(),
            final(self).orphaned(*old(self), parent_clus, name@, freed),
    {
        let key: String = to_lower(name);
        let before: Vec<u64> = match self.handle_registry.remove(parent_clus, key) {
            Some(v) => v,
            None => Vec::new(),
        };
        let open: Vec<u64> = self.live_handles(&before);
        let ghost mid = *self;
        let mut i: usize = 0;
        while i < open.len()
            invariant
                i <= open@.len(),
                *self == (Fat32SuperBlock { unlinked_handles: self.unlinked_handles, ..mid }),
                self.unlinked_handles.files == mid.unlinked_handles.files,
                forall|h: u64| #[trigger]
                    self.unlinked_set().contains(h) <==> mid.unlinked_set().contains(h)
                        || open@.take(i as int).contains(h),
            decreases open@.len() - i,
        {
            let ghost prev = self.unlinked_set();
            self.unlinked_handles.handles.insert(open[i]);
            assert forall|h: u64| #[trigger] self.unlinked_set().contains(
                h,
            ) <==> mid.unlinked_set().contains(h) || open@.take(i + 1).contains(h) by {
                assert(prev.contains(h) <==> mid.unlinked_set().contains(h) || open@.take(
                    i as int,
                ).contains(h));
                assert(open@.take(i + 1) =~= open@.take(i as int).push(open@[i as int]));
                if open@.take(i as int).contains(h) {
                    let k = choose|k: int|
                        0 <= k < open@.take(i as int).len() && open@.take(i as int)[k] == h;
                    assert(open@.take(i + 1)[k] == h);
                }
                if h == open@[i as int] {
                    assert(open@.take(i + 1)[i as int] == h);
                }
            }
            i = i + 1;
        }
        assert(open@.take(i as int) =~= open@);
        assert(self.orphans() =~= mid.orphans());
        let ghost lost = self.unlinked_set();
        let n: usize = open.len();
        assert(open@ == old(self).open_at(parent_clus, name@));
        if n > 0 {
            self.unlinked_handles.put(open, freed);
        }
        proof {
            let o = *old(self);
            let gone = o.open_at(parent_clus, name@);
            assert(self.unlinked_set() == lost);
            assert forall|h: u64| #[trigger] self.unlinked_set().contains(
                h,
            ) <==> o.unlinked_set().contains(h) || gone.contains(h) by {}
            assert(self.handles() == o.handles().remove((parent_clus, text::lower(name@))));
            assert(self.orphans() == (if gone.len() == 0 {
                o.orphans()
            } else {
                o.orphans().push(
                    orphans::OrphanView { handles: gone, freed, chains: Seq::empty() },
                )
            }));
        }
        n
    }

    /// Moves the handles of one place to another.
    pub fn move_handles(
        &mut self,
        old_parent: u32,
        old_name: &str,
        new_parent: u32,
        new_name: &str,
    )
        ensures
            ({
                let from = (old_parent, text::lower(old_name@));
                let to = (new_parent, text::lower(new_name@));
                let moved = live(old(self).handles_at(old_parent, old_name@), old(self).open_set());
                let there = if from == to {
                    Seq::<u64>::empty()
                } else {
                    live(old(self).handles_at(new_parent, new_name@), old(self).open_set())
                };
                final(self).handles() == old(self).handles().remove(from).insert(to, there + moved)
            }),
            *final(self) == (Fat32SuperBlock {
                handle_registry: final(self).handle_registry,
                ..*old(self)
            }),
    {
        let from: String = to_lower(old_name);
        let to: String = to_lower(new_name);
        let moved: Vec<u64> = match self.handle_registry.remove(old_parent, from) {
            Some(v) => v,
            None => Vec::new(),
        };
        let there: Vec<u64> = match self.handle_registry.remove(new_parent, to.clone()) {
            Some(v) => v,
            None => Vec::new(),
        };
        let mut all: Vec<u64> = self.live_handles(&there);
        let mut rest: Vec<u64> = self.live_handles(&moved);
        proof {
            assert(live(Seq::<u64>::empty(), self.open_set()) =~= Seq::<u64>::empty()) by {
                reveal(Seq::filter);
            }
        }
        all.append(&mut rest);
        self.handle_registry.insert(new_parent, to, all);
        proof {
            let f = (old_parent, text::lower(old_name@));
            let t = (new_parent, text::lower(new_name@));
            assert(self.handles() =~= old(self).handles().remove(f).insert(t, all@));
        }
    }

    /// A new handle.
    pub fn new_handle(&mut self) -> (r: u64)
        ensures
            r == old(self).next_handle,
            *final(self) == (Fat32SuperBlock { next_handle: r.wrapping_add(1), ..*old(self) }),
    {
        let h: u64 = self.next_handle;
        self.next_handle = h.wrapping_add(1);
        h
    }
}

} // verus!
