//! Hash tables, by their contents.
//!
//! The tables are hashbrown's. Each is described by the map or the set that it
//! holds; the order in which a table is walked is left open.

use std::sync::Arc;
use vstd::prelude::*;

verus! {

/// A hash map from sector numbers to sectors.
#[verifier::external_body]
pub struct SectorMap {
    inner: hashbrown::HashMap<u64, [u8; 512]>,
}

/// The sectors that the map holds.
pub uninterp spec fn sector_map(m: SectorMap) -> Map<u64, Seq<u8>>;

impl SectorMap {
    /// `hashbrown::HashMap::new`: the map is empty.
    #[verifier::external_body]
    pub(crate) fn new() -> (r: SectorMap)
        ensures
            sector_map(r) == (Map::<u64, Seq<u8>>::empty()),
    {
        SectorMap { inner: hashbrown::HashMap::new() }
    }

    /// `hashbrown::HashMap::insert`: the key now maps to the value, whatever it
    /// mapped to before; other keys are untouched.
    #[verifier::external_body]
    pub(crate) fn insert(&mut self, lba: u64, data: [u8; 512])
        ensures
            sector_map(*final(self)) == sector_map(*old(self)).insert(lba, data@),
    {
        self.inner.insert(lba, data);
    }

    /// `hashbrown::HashMap::get`: the value of the key, if there is one.
    #[verifier::external_body]
    pub(crate) fn get(&self, lba: u64) -> (r: Option<[u8; 512]>)
        ensures
            match r {
                Some(d) => sector_map(*self).contains_key(lba) && d@ == sector_map(*self)[lba],
                None => !sector_map(*self).contains_key(lba),
            },
    {
        self.inner.get(&lba).copied()
    }

    /// `hashbrown::HashMap::contains_key`: the key has a value.
    #[verifier::external_body]
    pub(crate) fn contains_key(&self, lba: u64) -> (r: bool)
        ensures
            r == sector_map(*self).contains_key(lba),
    {
        self.inner.contains_key(&lba)
    }

    /// `hashbrown::HashMap::remove`: the key has no value any more; other keys are
    /// untouched.
    #[verifier::external_body]
    pub(crate) fn remove(&mut self, lba: u64)
        ensures
            sector_map(*final(self)) == sector_map(*old(self)).remove(lba),
    {
        self.inner.remove(&lba);
    }

    /// `hashbrown::HashMap::len`: the number of keys.
    #[verifier::external_body]
    pub(crate) fn len(&self) -> (r: usize)
        ensures
            r == sector_map(*self).dom().len(),
    {
        self.inner.len()
    }
}

/// A hash set of sector numbers.
#[verifier::external_body]
pub struct LbaSet {
    inner: hashbrown::HashSet<u64>,
}

/// The numbers in the set.
pub uninterp spec fn lba_set(s: LbaSet) -> Set<u64>;

impl LbaSet {
    /// `hashbrown::HashSet::new`: the set is empty.
    #[verifier::external_body]
    pub(crate) fn new() -> (r: LbaSet)
        ensures
            lba_set(r) == Set::<u64>::empty(),
    {
        LbaSet { inner: hashbrown::HashSet::new() }
    }

    /// `hashbrown::HashSet::insert`: the number is now in the set; the result says
    /// whether it was not there before.
    #[verifier::external_body]
    pub(crate) fn insert(&mut self, lba: u64) -> (r: bool)
        ensures
            lba_set(*final(self)) == lba_set(*old(self)).insert(lba),
            r == !lba_set(*old(self)).contains(lba),
    {
        self.inner.insert(lba)
    }

    /// `hashbrown::HashSet::contains`: the number is in the set.
    #[verifier::external_body]
    pub(crate) fn contains(&self, lba: u64) -> (r: bool)
        ensures
            r == lba_set(*self).contains(lba),
    {
        self.inner.contains(&lba)
    }

    /// `hashbrown::HashSet::remove`: the number is no longer in the set.
    #[verifier::external_body]
    pub(crate) fn remove(&mut self, lba: u64)
        ensures
            lba_set(*final(self)) == lba_set(*old(self)).remove(lba),
    {
        self.inner.remove(&lba);
    }

    /// `hashbrown::HashSet::clear`: the set is empty.
    #[verifier::external_body]
    pub(crate) fn clear(&mut self)
        ensures
            lba_set(*final(self)) == Set::<u64>::empty(),
    {
        self.inner.clear();
    }

    /// `hashbrown::HashSet::iter`: each number in the set once, in an order that is
    /// left open.
    #[verifier::external_body]
    pub(crate) fn members(&self) -> (r: Vec<u64>)
        ensures
            r@.no_duplicates(),
            forall|x: u64| r@.contains(x) <==> lba_set(*self).contains(x),
    {
        self.inner.iter().copied().collect()
    }
}

/// `slice::sort_unstable`: the same numbers, smallest first.
#[verifier::external_body]
pub(crate) fn sort_numbers(v: &mut Vec<u64>)
    ensures
        final(v)@.to_multiset() == old(v)@.to_multiset(),
        forall|i: int, j: int| 0 <= i <= j < final(v)@.len() ==> final(v)@[i] <= final(v)@[j],
{
    v.sort_unstable();
}

/// A hash map from first clusters to cluster chains.
#[verifier::external_body]
pub struct ChainMap {
    inner: hashbrown::HashMap<u32, Arc<Vec<u32>>>,
}

/// The chains that the map holds.
pub uninterp spec fn chain_map(m: ChainMap) -> Map<u32, Seq<u32>>;

impl ChainMap {
    /// `hashbrown::HashMap::new`: the map is empty.
    #[verifier::external_body]
    pub(crate) fn new() -> (r: ChainMap)
        ensures
            chain_map(r) == (Map::<u32, Seq<u32>>::empty()),
    {
        ChainMap { inner: hashbrown::HashMap::new() }
    }

    /// `hashbrown::HashMap::insert`: the key now maps to the chain; other keys are
    /// untouched.
    #[verifier::external_body]
    pub(crate) fn insert(&mut self, first: u32, chain: Arc<Vec<u32>>)
        ensures
            chain_map(*final(self)) == chain_map(*old(self)).insert(first, chain@),
    {
        self.inner.insert(first, chain);
    }

    /// `hashbrown::HashMap::get`: the chain of the key, if there is one.
    #[verifier::external_body]
    pub(crate) fn get(&self, first: u32) -> (r: Option<Arc<Vec<u32>>>)
        ensures
            match r {
                Some(c) => chain_map(*self).contains_key(first) && c@ == chain_map(*self)[first],
                None => !chain_map(*self).contains_key(first),
            },
    {
        self.inner.get(&first).cloned()
    }

    /// `hashbrown::HashMap::remove`: the key has no chain any more; other keys are
    /// untouched.
    #[verifier::external_body]
    pub(crate) fn remove(&mut self, first: u32)
        ensures
            chain_map(*final(self)) == chain_map(*old(self)).remove(first),
    {
        self.inner.remove(&first);
    }
}

/// A hash map from places in the tree, a directory and a name in it, to numbers.
#[verifier::external_body]
pub struct InoMap {
    inner: hashbrown::HashMap<(u32, String), u64>,
}

/// The numbers that the map holds.
pub uninterp spec fn ino_map(m: InoMap) -> Map<(u32, Seq<char>), u64>;

impl InoMap {
    /// `hashbrown::HashMap::new`: the map is empty.
    #[verifier::external_body]
    pub(crate) fn new() -> (r: InoMap)
        ensures
            ino_map(r) == (Map::<(u32, Seq<char>), u64>::empty()),
    {
        InoMap { inner: hashbrown::HashMap::new() }
    }

    /// `hashbrown::HashMap::insert`: the key now maps to the number; other keys are
    /// untouched.
    #[verifier::external_body]
    pub(crate) fn insert(&mut self, parent: u32, name: String, ino: u64)
        ensures
            ino_map(*final(self)) == ino_map(*old(self)).insert((parent, name@), ino),
    {
        self.inner.insert((parent, name), ino);
    }

    /// `hashbrown::HashMap::get`: the number of the key, if there is one.
    #[verifier::external_body]
    pub(crate) fn get(&self, parent: u32, name: String) -> (r: Option<u64>)
        ensures
            match r {
                Some(n) => ino_map(*self).contains_key((parent, name@)) && n == ino_map(*self)[(
                    parent,
                    name@,
                )],
                None => !ino_map(*self).contains_key((parent, name@)),
            },
    {
        self.inner.get(&(parent, name)).copied()
    }
}

/// A hash map from places in the tree to the handles that are open on them.
#[verifier::external_body]
pub struct HandleMap {
    inner: hashbrown::HashMap<(u32, String), Vec<u64>>,
}

/// The handles that the map holds.
pub uninterp spec fn handle_map(m: HandleMap) -> Map<(u32, Seq<char>), Seq<u64>>;

impl HandleMap {
    /// `hashbrown::HashMap::new`: the map is empty.
    #[verifier::external_body]
    pub(crate) fn new() -> (r: HandleMap)
        ensures
            handle_map(r) == (Map::<(u32, Seq<char>), Seq<u64>>::empty()),
    {
        HandleMap { inner: hashbrown::HashMap::new() }
    }

    /// `hashbrown::HashMap::insert`: the key now maps to the handles; other keys are
    /// untouched.
    #[verifier::external_body]
    pub(crate) fn insert(&mut self, parent: u32, name: String, handles: Vec<u64>)
        ensures
            handle_map(*final(self)) == handle_map(*old(self)).insert((parent, name@), handles@),
    {
        self.inner.insert((parent, name), handles);
    }

    /// `hashbrown::HashMap::remove`: the handles of the key, if it had any; the key has
    /// none any more, and other keys are untouched.
    #[verifier::external_body]
    pub(crate) fn remove(&mut self, parent: u32, name: String) -> (r: Option<Vec<u64>>)
        ensures
            handle_map(*final(self)) == handle_map(*old(self)).remove((parent, name@)),
            match r {
                Some(v) => handle_map(*old(self)).contains_key((parent, name@)) && v@ == handle_map(
                    *old(self),
                )[(parent, name@)],
                None => !handle_map(*old(self)).contains_key((parent, name@)),
            },
    {
        self.inner.remove(&(parent, name))
    }
}

/// A hash set of short file names.
#[verifier::external_body]
pub struct SfnSet {
    inner: hashbrown::HashSet<[u8; 11]>,
}

/// The names in the set.
pub uninterp spec fn sfn_set(s: SfnSet) -> Set<Seq<u8>>;

impl SfnSet {
    /// `hashbrown::HashSet::new`: the set is empty.
    #[verifier::external_body]
    pub(crate) fn new() -> (r: SfnSet)
        ensures
            sfn_set(r) == Set::<Seq<u8>>::empty(),
    {
        SfnSet { inner: hashbrown::HashSet::new() }
    }

    /// `hashbrown::HashSet::insert`: the name is now in the set.
    #[verifier::external_body]
    pub(crate) fn insert(&mut self, name: [u8; 11])
        ensures
            sfn_set(*final(self)) == sfn_set(*old(self)).insert(name@),
    {
        self.inner.insert(name);
    }

    /// The set of the names in a list.
    pub fn of(names: &Vec<[u8; 11]>) -> (r: SfnSet)
        ensures
            forall|n: Seq<u8>| #[trigger]
                sfn_set(r).contains(n) <==> exists|i: int|
                    0 <= i < names@.len() && (#[trigger] names@[i])@ == n,
    {
        let mut set: SfnSet = SfnSet::new();
        let mut i: usize = 0;
        while i < names.len()
            invariant
                i <= names@.len(),
                forall|n: Seq<u8>| #[trigger]
                    sfn_set(set).contains(n) <==> exists|k: int|
                        0 <= k < i && (#[trigger] names@[k])@ == n,
            decreases names@.len() - i,
        {
            let ghost before = sfn_set(set);
            set.insert(names[i]);
            proof {
                assert forall|n: Seq<u8>| #[trigger] sfn_set(set).contains(n) implies exists|k: int|
                    0 <= k < i + 1 && (#[trigger] names@[k])@ == n by {
                    if !before.contains(n) {
                        assert(names@[i as int]@ == n);
                    }
                }
                assert forall|n: Seq<u8>|
                    (exists|k: int| 0 <= k < i + 1
                        && (#[trigger] names@[k])@ == n) implies #[trigger] sfn_set(
                    set,
                ).contains(n) by {
                    let k = choose|k: int| 0 <= k < i + 1 && (#[trigger] names@[k])@ == n;
                    if k < i {
                        assert(before.contains(names@[k]@));
                    }
                }
            }
            i = i + 1;
        }
        set
    }

    /// `hashbrown::HashSet::contains`: the name is in the set.
    #[verifier::external_body]
    pub(crate) fn contains(&self, name: &[u8; 11]) -> (r: bool)
        ensures
            r == sfn_set(*self).contains(name@),
    {
        self.inner.contains(name)
    }
}

/// A hash map from names to nodes, by their numbers.
#[verifier::external_body]
pub struct ChildMap {
    inner: hashbrown::HashMap<String, u64>,
}

/// The nodes that the map holds.
pub uninterp spec fn child_map(m: ChildMap) -> Map<Seq<char>, u64>;

impl ChildMap {
    /// `hashbrown::HashMap::new`: the map is empty.
    #[verifier::external_body]
    pub(crate) fn new() -> (r: ChildMap)
        ensures
            child_map(r) == (Map::<Seq<char>, u64>::empty()),
    {
        ChildMap { inner: hashbrown::HashMap::new() }
    }

    /// `hashbrown::HashMap::insert`: the name now maps to the node; the result is the
    /// node that it mapped to before, if it did. Other names are untouched.
    #[verifier::external_body]
    pub(crate) fn insert(&mut self, name: String, node: u64) -> (r: Option<u64>)
        ensures
            child_map(*final(self)) == child_map(*old(self)).insert(name@, node),
            match r {
                Some(n) => child_map(*old(self)).contains_key(name@) && n == child_map(
                    *old(self),
                )[name@],
                None => !child_map(*old(self)).contains_key(name@),
            },
    {
        self.inner.insert(name, node)
    }

    /// `hashbrown::HashMap::get`: the node of the name, if there is one.
    #[verifier::external_body]
    pub(crate) fn get(&self, name: &str) -> (r: Option<u64>)
        ensures
            match r {
                Some(n) => child_map(*self).contains_key(name@) && n == child_map(*self)[name@],
                None => !child_map(*self).contains_key(name@),
            },
    {
        self.inner.get(name).copied()
    }

    /// `hashbrown::HashMap::remove`: the name has no node any more; the result is the
    /// node that it had, if it had one. Other names are untouched.
    #[verifier::external_body]
    pub(crate) fn remove(&mut self, name: &str) -> (r: Option<u64>)
        ensures
            child_map(*final(self)) == child_map(*old(self)).remove(name@),
            match r {
                Some(n) => child_map(*old(self)).contains_key(name@) && n == child_map(
                    *old(self),
                )[name@],
                None => !child_map(*old(self)).contains_key(name@),
            },
    {
        self.inner.remove(name)
    }

    /// `hashbrown::HashMap::is_empty`: no name has a node.
    #[verifier::external_body]
    pub(crate) fn is_empty(&self) -> (r: bool)
        ensures
            r == (child_map(*self) == Map::<Seq<char>, u64>::empty()),
    {
        self.inner.is_empty()
    }

    /// `hashbrown::HashMap::keys`: each name once, in an order that is left open.
    #[verifier::external_body]
    pub(crate) fn names(&self) -> (r: Vec<String>)
        ensures
            forall|i: int, j: int|
                0 <= i < r@.len() && 0 <= j < r@.len() && i != j ==> #[trigger] r@[i]@
                    != #[trigger] r@[j]@,
            forall|i: int|
                0 <= i < r@.len() ==> child_map(*self).contains_key((#[trigger] r@[i])@),
            forall|n: Seq<char>| #[trigger]
                child_map(*self).contains_key(n) ==> exists|i: int|
                    0 <= i < r@.len() && (#[trigger] r@[i])@ == n,
    {
        self.inner.keys().cloned().collect()
    }
}

} // verus!
