//! Whole chains, remembered by their first cluster.

use std::sync::Arc;
use vstd::prelude::*;

use crate::blockdriver::traits::BlockDevice;
use crate::bytes;
use crate::bytes::read_le_u32;
use crate::collections;
use crate::fat32::cache;
use crate::fat32::io;
use crate::fat32::io::read_sectors;
use crate::fat32::superblock;
use crate::fat32::superblock::{Fat32SuperBlock, EOC_MARKER, ENTRY_MODULUS};
use crate::vfs::VfsError;

verus! {

/// Most sectors that one read of the table asks for.
pub const TABLE_CHUNK: u32 = 504;

/// The entry of cluster `c` in the bytes of a table.
pub open spec fn table_entry(t: Seq<u8>, c: int) -> int {
    bytes::le32(t, 4 * c) % 0x1000_0000
}

/// `s` is the chain from `first` on in the table `t` of a volume of `total` clusters.
pub open spec fn is_table_chain(t: Seq<u8>, total: int, first: int, s: Seq<u32>) -> bool {
    &&& s.len() > 0
    &&& s[0] == first
    &&& forall|k: int| 0 <= k < s.len() ==> 4 * (#[trigger] s[k]) + 4 <= t.len()
    &&& forall|k: int| 1 <= k < s.len() ==> 2 <= (#[trigger] s[k]) < 2 + total
    &&& forall|k: int|
        0 <= k < s.len() - 1 ==> #[trigger] table_entry(t, s[k] as int) == s[k + 1] && s[k + 1]
            < EOC_MARKER
    &&& table_entry(t, s.last() as int) >= EOC_MARKER
}

/// Follows the links from `first` on in the bytes of a table.
pub fn walk_table(table: &Vec<u8>, total_clus: u32, first: u32) -> (r: Result<Vec<u32>, VfsError>)
    requires
        total_clus <= u32::MAX - 2,
        first < EOC_MARKER,
    ensures
        match r {
            Ok(v) => is_table_chain(table@, total_clus as int, first as int, v@),
            Err(e) => e == VfsError::IOError && forall|s: Seq<u32>| #[trigger]
                is_table_chain(table@, total_clus as int, first as int, s) ==> s.len()
                    > total_clus + 3 || s.len() > table@.len() + 1,
        },
{
    let mut chain: Vec<u32> = Vec::new();
    let mut c: u32 = first;
    let mut count: u32 = 0;
    let ghost t = table@;
    let ghost total = total_clus as int;
    loop
        invariant
            t == table@,
            total == total_clus,
            total_clus <= u32::MAX - 2,
            first < EOC_MARKER,
            c < EOC_MARKER,
            count <= total_clus + 2,
            count <= t.len(),
            chain@.len() == count,
            count == 0 ==> c == first,
            count > 0 ==> chain@[0] == first && 2 <= c < 2 + total && table_entry(
                t,
                chain@[count - 1] as int,
            ) == c,
            forall|k: int| 0 <= k < chain@.len() ==> 4 * (#[trigger] chain@[k]) + 4 <= t.len(),
            forall|k: int| 1 <= k < chain@.len() ==> 2 <= (#[trigger] chain@[k]) < 2 + total,
            forall|k: int|
                0 <= k < chain@.len() - 1 ==> #[trigger] table_entry(t, chain@[k] as int)
                    == chain@[k + 1] && chain@[k + 1] < EOC_MARKER,
            forall|s: Seq<u32>| #[trigger]
                is_table_chain(t, total, first as int, s) ==> s.len() > count && s[count as int]
                    == c,
        decreases total_clus + 3 - count,
    {
        let ghost prev = chain@;
        chain.push(c);
        let off: u64 = c as u64 * 4;
        if off + 4 > table.len() as u64 {
            proof {
                assert forall|s: Seq<u32>| #[trigger]
                    is_table_chain(t, total, first as int, s) implies s.len() > total_clus + 3 by {
                    assert(s[count as int] == c);
                    assert(4 * s[count as int] + 4 <= t.len());
                }
            }
            return Err(VfsError::IOError);
        }
        let next: u32 = read_le_u32(table.as_slice(), off as usize) % ENTRY_MODULUS;
        assert(next == table_entry(t, c as int));
        proof {
            assert forall|k: int| 0 <= k < chain@.len() implies 4 * (#[trigger] chain@[k]) + 4
                <= t.len() by {
                if k < prev.len() {
                    assert(chain@[k] == prev[k]);
                }
            }
            assert forall|k: int| 0 <= k < chain@.len() - 1 implies #[trigger] table_entry(
                t,
                chain@[k] as int,
            ) == chain@[k + 1] && chain@[k + 1] < EOC_MARKER by {
                assert(chain@[k] == prev[k]);
                if k < prev.len() - 1 {
                    assert(table_entry(t, prev[k] as int) == prev[k + 1]);
                }
            }
            assert(chain@.last() == c);
        }
        if next >= EOC_MARKER {
            return Ok(chain);
        }
        proof {
            assert forall|s: Seq<u32>| #[trigger]
                is_table_chain(t, total, first as int, s) implies s.len() > count + 1 && s[count + 1]
                == next && 2 <= next < 2 + total by {
                assert(s[count as int] == c);
                if s.len() == count + 1 {
                    assert(s.last() == c);
                } else {
                    assert(table_entry(t, s[count as int] as int) == s[count + 1]);
                }
            }
        }
        if next < 2 || next >= 2 + total_clus {
            return Err(VfsError::IOError);
        }
        c = next;
        if count >= total_clus + 2 {
            return Err(VfsError::IOError);
        }
        if count as usize >= table.len() {
            return Err(VfsError::IOError);
        }
        count = count + 1;
    }
}

impl<D: BlockDevice> Fat32SuperBlock<D> {
    /// All is as in `o` but for the remembered chains, the table cache and the
    /// contents of the device.
    pub open spec fn same_but_chains(self, o: Self) -> bool {
        &&& self.bpb == o.bpb
        &&& self.next_ino == o.next_ino
        &&& self.ino_map == o.ino_map
        &&& self.handle_registry == o.handle_registry
        &&& self.open_handles == o.open_handles
        &&& self.unlinked_handles == o.unlinked_handles
        &&& self.next_handle == o.next_handle
        &&& self.alloc_bitmap == o.alloc_bitmap
        &&& self.next_alloc_hint == o.next_alloc_hint
        &&& self.free_clus_count == o.free_clus_count
        &&& self.volume_dirty == o.volume_dirty
        &&& io::same_device(self.device, o.device)
    }

    /// A step that is quiet but for the chains that it remembers.
    pub open spec fn quiet_but_chains(self, o: Self) -> bool {
        &&& self.inv()
        &&& self.same_but_chains(o)
        &&& o.sound() ==> self.sound() && self.same_data(o) && self.same_table(o)
    }

    /// The chains that are remembered.
    pub open spec fn chains(self) -> Map<u32, Seq<u32>> {
        collections::chain_map(self.chain_cache)
    }

    /// What is remembered of chains is as in `o`, but for that of `first`.
    pub open spec fn chains_but(self, o: Self, first: u32) -> bool {
        self.chains().remove(first) == o.chains().remove(first)
    }

    /// Remembering a chain leaves what is remembered of others.
    pub proof fn lemma_chains_insert(self, o: Self, first: u32, s: Seq<u32>)
        requires
            self.chains() == o.chains().insert(first, s),
        ensures
            self.chains_but(o, first),
    {
        assert(self.chains().remove(first) =~= o.chains().remove(first));
    }

    /// Where all other chains are remembered alike, they are so with one more.
    pub proof fn lemma_chains_agree(self, e: Self, o: Self, first: u32, s: Seq<u32>)
        requires
            self.chains() == e.chains().insert(first, s),
            e.chains_but(o, first),
        ensures
            self.chains() == o.chains().insert(first, s),
    {
        assert(self.chains() =~= e.chains().remove(first).insert(first, s));
        assert(o.chains().insert(first, s) =~= o.chains().remove(first).insert(first, s));
    }

    /// Forgetting a chain leaves what is remembered of others.
    pub proof fn lemma_chains_remove(self, e: Self, o: Self, first: u32)
        requires
            self.chains() == e.chains().remove(first),
            e.chains_but(o, first),
        ensures
            self.chains_but(o, first),
    {
        assert(self.chains().remove(first) =~= e.chains().remove(first));
    }

    /// What is remembered of the chain of `first` is right.
    pub open spec fn chain_fresh(self, first: u32) -> bool {
        self.chains().contains_key(first) ==> self.is_chain(first as int, self.chains()[first])
    }

    /// The bytes of the table in use, with the changes that have not been written back.
    fn read_table(&mut self) -> (r: Result<Vec<u8>, VfsError>)
        requires
            old(self).inv(),
            old(self).bpb.fat_sz32 <= 1024,
        ensures
            final(self).quiet(*old(self)),
            final(self).device.disk() == old(self).device.disk(),
            final(self).fat_cache == old(self).fat_cache,
            match r {
                Ok(v) => v@.len() == old(self).bpb.fat_sz32 * 512 && forall|c: int|
                    old(self).has_entry(c) ==> #[trigger] table_entry(v@, c) == old(self).entry(c),
                Err(e) => e == VfsError::IOError && final(self).faults() > old(self).faults(),
            },
    {
        let ghost o = *self;
        let idx: u8 = self.bpb.active_fat_idx();
        let lba: u64 = self.bpb.fat_sector_lba(idx, 0);
        let fat_sz: u32 = self.bpb.fat_sz32;
        let ghost d = self.device.disk();
        proof {
            self.lemma_active_bound();
        }
        let mut table: Vec<u8> = Vec::new();
        let mut off: u32 = 0;
        while off < fat_sz
            invariant
                o == *old(self),
                o.inv(),
                off <= fat_sz <= 1024,
                lba <= 0xFFFF + 15 * 0xFFFF_FFFF,
                self.inv(),
                self.device.disk() == d,
                self.same_rest(o),
                self.fat_cache == o.fat_cache,
                o.device.disk() == d,
                table@ == io::disk_range(d, lba * 512, off * 512),
            decreases fat_sz - off,
        {
            let rest: u32 = fat_sz - off;
            let n: u32 = if rest < TABLE_CHUNK {
                rest
            } else {
                TABLE_CHUNK
            };
            let mut part: Vec<u8> = match read_sectors(&mut self.device, lba + off as u64, n) {
                Ok(v) => v,
                Err(e) => {
                    proof {
                        self.lemma_same_source(o);
                    }
                    return Err(e);
                },
            };
            table.append(&mut part);
            assert(table@ =~= io::disk_range(d, lba * 512, (off + n) * 512));
            off = off + n;
        }
        let ghost raw = table@;
        self.fat_cache.overlay(&mut table, lba, fat_sz);
        proof {
            self.lemma_same_source(o);
            reveal(Fat32SuperBlock::entry);
            assert forall|c: int| o.has_entry(c) implies #[trigger] table_entry(table@, c)
                == o.entry(c) by {
                let l = o.entry_lba(c);
                let sec = o.fat_cache.logical(d, l);
                let i = (c % 128) * 4;
                assert(l == lba + c / 128);
                assert forall|j: int| 0 <= j < 4 implies #[trigger] sec[i + j] == table@[4 * c
                    + j] by {
                    let k = 4 * c + j;
                    assert(k / 512 == c / 128 && k % 512 == i + j);
                    assert(table@[k] == o.fat_cache.byte_over(raw, lba as int, k));
                }
                assert(sec[i + 0] == table@[4 * c + 0]);
                assert(sec[i + 1] == table@[4 * c + 1]);
                assert(sec[i + 2] == table@[4 * c + 2]);
                assert(sec[i + 3] == table@[4 * c + 3]);
            }
        }
        Ok(table)
    }

    /// Follows the links from `first` on, entry by entry.
    fn walk_entries(&mut self, first: u32) -> (r: Result<Vec<u32>, VfsError>)
        requires
            old(self).inv(),
            first < EOC_MARKER,
        ensures
            final(self).quiet(*old(self)),
            match r {
                Ok(v) => v@.len() > 0 && (old(self).sound() && (forall|k: int|
                    0 <= k < v@.len() ==> old(self).has_entry(#[trigger] v@[k] as int))
                        ==> old(self).is_chain(first as int, v@)) && forall|t: Seq<u32>| #[trigger]
                    old(self).is_chain(first as int, t) && old(self).sound() ==> v@ == t,
                Err(e) => e == VfsError::IOError && (old(self).has_chain(first as int)
                    ==> final(self).faults() > old(self).faults()),
            },
    {
        let ghost o = *self;
        let mut chain: Vec<u32> = Vec::new();
        let mut c: u32 = first;
        let mut count: u32 = 0;
        loop
            invariant
                o == *old(self),
                self.quiet(o),
                o.bpb.total_clus <= u32::MAX - 2,
                count <= o.bpb.total_clus + 2,
                c < EOC_MARKER,
                chain@.len() == count,
                count == 0 ==> c == first,
                count > 0 ==> chain@[0] == first,
                forall|k: int| 0 <= k < chain@.len() ==> (#[trigger] chain@[k]) < EOC_MARKER,
                count > 0 && o.sound() && o.has_entry(chain@[count - 1] as int) ==> o.entry(
                    chain@[count - 1] as int,
                ) == c,
                forall|k: int|
                    0 <= k < chain@.len() - 1 && o.sound() && o.has_entry(chain@[k] as int)
                        ==> #[trigger] o.entry(chain@[k] as int) == chain@[k + 1],
                forall|t: Seq<u32>| #[trigger]
                    o.is_chain(first as int, t) && o.sound() ==> count < t.len() && c
                        == t[count as int] && chain@ == t.take(count as int),
            decreases o.bpb.total_clus + 3 - count,
        {
            let ghost prev = chain@;
            chain.push(c);
            let ghost m = *self;
            let read = self.read_fat_entry(c);
            proof {
                self.lemma_quiet_trans(m, o);
                if o.sound() && o.has_entry(c as int) {
                    assert(m.entry(c as int) == o.entry(c as int));
                }
                assert forall|k: int|
                    0 <= k < chain@.len() - 1 && o.sound() && o.has_entry(
                        chain@[k] as int,
                    ) implies #[trigger] o.entry(chain@[k] as int) == chain@[k + 1] by {
                    assert(chain@[k] == prev[k]);
                    if k < prev.len() - 1 {
                        assert(chain@[k + 1] == prev[k + 1]);
                        assert(o.entry(prev[k] as int) == prev[k + 1]);
                    }
                }
                assert forall|t: Seq<u32>| #[trigger]
                    o.is_chain(first as int, t) && o.sound() implies chain@ == t.take(count + 1) && (
                read matches Ok(next) ==> if count == t.len() - 1 {
                    next >= EOC_MARKER
                } else {
                    next == t[count + 1]
                }) by {
                    assert(chain@ =~= t.take(count + 1));
                    assert(o.has_entry(t[count as int] as int));
                    if count == t.len() - 1 {
                        assert(t.last() == t[count as int]);
                    } else {
                        assert(o.entry(t[count as int] as int) == t[count + 1]);
                    }
                }
                assert forall|t: Seq<u32>| #[trigger]
                    o.is_chain(first as int, t) && o.sound() && count == t.len() - 1 implies t.take(
                    count + 1,
                ) == t by {
                    assert(t.take(count + 1) =~= t);
                }
            }
            let next: u32 = match read {
                Ok(v) => v,
                Err(e) => return Err(e),
            };
            if next >= EOC_MARKER {
                return Ok(chain);
            }
            c = next;
            if count >= self.bpb.total_clus + 2 {
                proof {
                    if o.has_chain(first as int) {
                        let t = choose|t: Seq<u32>| #[trigger] o.is_file_chain(first as int, t);
                        o.lemma_file_chain_len(first as int, t);
                        assert(o.is_chain(first as int, t));
                    }
                }
                return Err(VfsError::IOError);
            }
            count = count + 1;
        }
    }

    /// The chain of a file, which is built once for each first cluster and then
    /// remembered. A small table is read as a whole; a large one entry by entry.
    pub fn chain_for(&mut self, first: u32) -> (r: Result<Arc<Vec<u32>>, VfsError>)
        requires
            old(self).inv(),
        ensures
            final(self).quiet_but_chains(*old(self)),
            !(2 <= first < EOC_MARKER) ==> (r matches Ok(v) && v@ == Seq::<u32>::empty())
                && *final(self) == *old(self),
            2 <= first < EOC_MARKER && old(self).chains().contains_key(first) ==> (r matches Ok(v)
                && v@ == old(self).chains()[first]) && *final(self) == *old(self),
            2 <= first < EOC_MARKER ==> match r {
                Ok(v) => v@.len() > 0
                    && final(self).chains() == old(self).chains().insert(first, v@)
                    && (old(self).sound() && old(self).chain_fresh(first) && (forall|k: int|
                    0 <= k < v@.len() ==> old(self).has_entry(#[trigger] v@[k] as int))
                        ==> old(self).is_chain(first as int, v@)) && forall|t: Seq<u32>| #[trigger]
                    old(self).is_chain(first as int, t) && old(self).sound()
                        && old(self).chain_fresh(first) ==> v@ == t,
                Err(e) => e == VfsError::IOError && final(self).chains() == old(self).chains() && (
                old(self).has_chain(first as int) ==> final(self).faults() > old(self).faults()),
            },
    {
        if first < 2 || first >= EOC_MARKER {
            return Ok(Arc::new(Vec::new()));
        }
        match self.chain_cache.get(first) {
            Some(chain) => {
                proof {
                    reveal(superblock::none_empty);
                    assert(self.chains() =~= self.chains().insert(first, chain@));
                    assert forall|t: Seq<u32>| #[trigger]
                        self.is_chain(first as int, t) && self.chain_fresh(first) implies chain@
                        == t by {
                        self.lemma_chain_unique(first as int, chain@, t);
                    }
                }
                return Ok(chain);
            },
            None => {},
        }
        let ghost o = *self;
        let use_bulk = self.bpb.fat_sz32 <= 1024 && self.bpb.total_clus <= 200_000;
        let chain_vec: Vec<u32> = if use_bulk {
            let table: Vec<u8> = match self.read_table() {
                Ok(t) => t,
                Err(e) => return Err(e),
            };
            match walk_table(&table, self.bpb.total_clus, first) {
                Ok(v) => {
                    proof {
                        if o.sound() {
                            assert forall|k: int| 0 <= k < v@.len() implies o.has_entry(
                                #[trigger] v@[k] as int,
                            ) && v@[k] < EOC_MARKER by {
                                assert(4 * v@[k] + 4 <= table@.len());
                                if k > 0 {
                                    assert(table_entry(table@, v@[k - 1] as int) == v@[k - 1 + 1]);
                                }
                            }
                            assert forall|k: int| 0 <= k < v@.len() - 1 implies #[trigger] o.entry(
                                v@[k] as int,
                            ) == v@[k + 1] by {
                                assert(o.has_entry(v@[k] as int));
                                assert(table_entry(table@, v@[k] as int) == v@[k + 1]);
                            }
                            assert(v@.last() == v@[v@.len() - 1]);
                            assert(o.has_entry(v@.last() as int));
                            assert(table_entry(table@, v@.last() as int) == o.entry(
                                v@.last() as int,
                            ));
                            assert(o.is_chain(first as int, v@));
                            assert forall|t: Seq<u32>| #[trigger]
                                o.is_chain(first as int, t) implies v@ == t by {
                                o.lemma_chain_unique(first as int, v@, t);
                            }
                        }
                    }
                    v
                },
                Err(e) => {
                    proof {
                        if o.has_chain(first as int) {
                            let t = choose|t: Seq<u32>| #[trigger]
                                o.is_file_chain(first as int, t);
                            o.lemma_file_chain_len(first as int, t);
                            lemma_in_table(o, table@, first as int, t);
                        }
                    }
                    return Err(e);
                },
            }
        } else {
            match self.walk_entries(first) {
                Ok(v) => v,
                Err(e) => return Err(e),
            }
        };
        let ghost q = *self;
        let chain: Arc<Vec<u32>> = Arc::new(chain_vec);
        self.chain_cache.insert(first, chain.clone());
        proof {
            let f = *self;
            f.lemma_same_source(q);
            reveal(superblock::none_empty);
            if o.sound() {
                assert(f.same_data(q));
                f.lemma_same_data_trans(q, o);
                assert forall|x: int| o.has_entry(x) implies #[trigger] f.entry(x) == o.entry(x) by {
                    assert(f.entry(x) == q.entry(x));
                }
            }
        }
        Ok(chain)
    }

    /// Forgets a chain, before its links are changed or its clusters are freed.
    pub fn invalidate_chain(&mut self, first: u32)
        requires
            old(self).inv(),
        ensures
            final(self).inv(),
            final(self).same_but_chains(*old(self)),
            final(self).fat_cache == old(self).fat_cache,
            final(self).device == old(self).device,
            final(self).chains() == (if first == 0 {
                old(self).chains()
            } else {
                old(self).chains().remove(first)
            }),
    {
        if first != 0 {
            self.chain_cache.remove(first);
        }
        reveal(superblock::none_empty);
    }
}

/// A chain of the volume is one in the bytes of its table.
proof fn lemma_in_table<D: BlockDevice>(
    o: Fat32SuperBlock<D>,
    table: Seq<u8>,
    first: int,
    t: Seq<u32>,
)
    requires
        o.sound(),
        o.is_file_chain(first, t),
        table.len() == o.bpb.fat_sz32 * 512,
        forall|c: int| o.has_entry(c) ==> #[trigger] table_entry(table, c) == o.entry(c),
    ensures
        is_table_chain(table, o.bpb.total_clus as int, first, t),
        t.len() <= table.len(),
{
    o.lemma_file_chain_len(first, t);
    assert forall|k: int| 0 <= k < t.len() implies 4 * (#[trigger] t[k]) + 4 <= table.len() by {
        assert(o.has_entry(t[k] as int));
    }
    assert forall|k: int| 1 <= k < t.len() implies 2 <= (#[trigger] t[k]) < 2
        + o.bpb.total_clus by {
        assert(o.is_cluster(t[k] as int));
    }
    assert forall|k: int| 0 <= k < t.len() - 1 implies #[trigger] table_entry(table, t[k] as int)
        == t[k + 1] && t[k + 1] < EOC_MARKER by {
        assert(o.has_entry(t[k] as int));
        assert(o.entry(t[k] as int) == t[k + 1]);
        assert(t[k + 1] < EOC_MARKER);
    }
    assert(o.has_entry(t[t.len() - 1] as int));
    assert(table_entry(table, t.last() as int) == o.entry(t.last() as int));
}

} // verus!
