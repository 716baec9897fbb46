//! Files and directories of a volume.

use std::sync::Arc;
use vstd::prelude::*;

use crate::blockdriver::traits::BlockDevice;
use crate::fat32::dirent::DirEntrySlot;
use crate::fat32::orphans;
use crate::fat32::superblock::{Fat32SuperBlock, EOC_MARKER};
use crate::text;
use crate::vfs::{FileType, Stat, VfsError};

verus! {

/// An open file or directory.
pub struct Fat32Inode {
    pub first_clus: u32,
    pub size: u32,
    pub file_type: FileType,
    pub ino: u64,
    /// When the file was last changed, in seconds since 1970; 0 for the root, or where
    /// that is not known.
    pub mtime: u64,
    /// The first cluster of the directory that holds the name.
    pub parent_clus: u32,
    pub entry_name: String,
    pub handle: u64,
    pub dir_cache: Option<(u64, Arc<Vec<DirEntrySlot>>)>,
    pub dir_generation: u64,
}

/// The two chains have no cluster in common.
pub open spec fn disjoint(a: Seq<u32>, b: Seq<u32>) -> bool {
    forall|i: int, j: int|
        0 <= i < a.len() && 0 <= j < b.len() ==> #[trigger] a[i] != #[trigger] b[j]
}

impl Fat32Inode {
    /// All but the first cluster, the size and the time is as in `o`.
    pub open spec fn same_file(self, o: Self) -> bool {
        &&& self.file_type == o.file_type
        &&& self.ino == o.ino
        &&& self.parent_clus == o.parent_clus
        &&& self.entry_name == o.entry_name
        &&& self.handle == o.handle
        &&& self.dir_cache == o.dir_cache
        &&& self.dir_generation == o.dir_generation
    }

    /// After a change of the size to `size` that failed, the file is still the one that `o`
    /// was: its first cluster, where it had one, and its time are the same, and so is its
    /// size, unless it has come to `size`.
    pub open spec fn still_held(self, o: Self, size: int) -> bool {
        &&& self.same_file(o)
        &&& o.first_clus != 0 ==> self.first_clus == o.first_clus
        &&& self.mtime == o.mtime
        &&& self.size == o.size || self.size == size
    }

    /// The name of the file is gone.
    pub open spec fn is_unlinked<D: BlockDevice>(self, sb: Fat32SuperBlock<D>) -> bool {
        sb.unlinked_set().contains(self.handle)
    }

    /// `s` are the clusters of the file, and `p`, unless its name is gone, those of its
    /// directory, which states the first of them, on a volume whose bitmap and table agree. The
    /// file and its directory share no cluster.
    pub open spec fn placed<D: BlockDevice>(
        self,
        sb: Fat32SuperBlock<D>,
        s: Seq<u32>,
        p: Seq<u32>,
    ) -> bool {
        &&& sb.tracked_ok()
        &&& if self.first_clus == 0 {
            s.len() == 0
        } else {
            sb.is_file_chain(self.first_clus as int, s) && sb.chain_fresh(self.first_clus)
        }
        &&& self.is_unlinked(sb) || {
            &&& sb.is_file_chain(self.parent_clus as int, p)
            &&& disjoint(s, p)
            &&& sb.stated(p, self.entry_name@) matches Some((first, _)) && first == self.first_clus
        }
    }

    /// Whether the name of the file is gone.
    pub fn unlinked<D: BlockDevice>(&self, sb: &Fat32SuperBlock<D>) -> (r: bool)
        ensures
            r == self.is_unlinked(*sb),
    {
        sb.unlinked_handles.handles.contains(self.handle)
    }

    /// How much a read of `len` bytes from `offset` on asks for.
    pub open spec fn wanted(self, offset: int, len: int) -> int {
        if self.size - offset <= len {
            self.size - offset
        } else {
            len
        }
    }

    /// Reads from `offset` on into `buf`, up to the end of the file, and returns how many
    /// bytes were read.
    pub fn read_at<D: BlockDevice>(
        &self,
        sb: &mut Fat32SuperBlock<D>,
        offset: u64,
        buf: &mut [u8],
    ) -> (r: Result<usize, VfsError>)
        requires
            old(sb).inv(),
        ensures
            final(sb).quiet_but_chains(*old(sb)),
            forall|s: Seq<u32>| #[trigger]
                old(sb).is_file_chain(self.first_clus as int, s) && old(sb).sound()
                    && old(sb).chain_fresh(self.first_clus) ==> final(sb).chains()
                    == old(sb).chains() || final(sb).chains() == old(sb).chains().insert(
                    self.first_clus,
                    s,
                ),
            final(sb).chains_but(*old(sb), self.first_clus),
            forall|c: u32|
                old(sb).has_chain(self.first_clus as int) && old(sb).chain_fresh(self.first_clus)
                    && #[trigger] old(sb).chain_fresh(c) ==> final(sb).chain_fresh(c),
            final(buf)@.len() == old(buf)@.len(),
            self.file_type != FileType::Regular ==> r == Err::<usize, VfsError>(
                VfsError::IsADirectory,
            ) && final(buf)@ == old(buf)@ && *final(sb) == *old(sb),
            self.file_type == FileType::Regular && (offset >= self.size || old(buf)@.len() == 0
                || !(2 <= self.first_clus < EOC_MARKER)) ==> r == Ok::<usize, VfsError>(0)
                    && final(buf)@ == old(buf)@ && *final(sb) == *old(sb),
            self.file_type == FileType::Regular ==> match r {
                Ok(n) => n <= old(buf)@.len() && final(buf)@.subrange(
                    n as int,
                    old(buf)@.len() as int,
                ) == old(buf)@.subrange(n as int, old(buf)@.len() as int) && forall|s: Seq<u32>|
                 #[trigger]
                    old(sb).is_file_chain(self.first_clus as int, s) && old(sb).sound()
                        && old(sb).chain_fresh(self.first_clus) && offset < self.size
                        ==> n == old(sb).chain_avail(
                        s,
                        offset as int,
                        self.wanted(offset as int, old(buf)@.len() as int),
                    ) && final(buf)@.subrange(0, n as int) == old(sb).chain_range(
                        s,
                        offset as int,
                        n as int,
                    ),
                Err(e) => e == VfsError::IOError && (old(sb).has_chain(self.first_clus as int)
                    || old(sb).chains().contains_key(self.first_clus) ==> final(sb).faults()
                    > old(sb).faults()),
            },
    {
        if self.file_type != FileType::Regular {
            return Err(VfsError::IsADirectory);
        }
        let ghost o = *sb;
        proof {
            assert forall|s: Seq<u32>| #[trigger]
                o.is_file_chain(self.first_clus as int, s) && o.sound() implies 2 <= self.first_clus
                < EOC_MARKER by {
                assert(o.is_cluster(s[0] as int));
            }
        }
        let file_size: u64 = self.size as u64;
        let first: u32 = self.first_clus;
        if offset >= file_size || buf.len() == 0 || first == 0 {
            assert(buf@.subrange(0, 0) =~= o.chain_range(Seq::empty(), offset as int, 0));
            proof {
                assert forall|s: Seq<u32>| #[trigger]
                    o.is_file_chain(self.first_clus as int, s) && o.sound() && offset
                        < self.size implies o.chain_avail(s, offset as int, 0) == 0 && o.chain_range(
                    s,
                    offset as int,
                    0,
                ) =~= Seq::<u8>::empty() by {}
            }
            return Ok(0);
        }
        let left: u64 = file_size - offset;
        let total: usize = if left < buf.len() as u64 {
            left as usize
        } else {
            buf.len()
        };
        let chain: Arc<Vec<u32>> = match sb.chain_for(first) {
            Ok(c) => c,
            Err(e) => return Err(e),
        };
        if chain.len() == 0 {
            assert(buf@.subrange(0, 0) =~= o.chain_range(Seq::empty(), offset as int, 0));
            proof {
                assert forall|s: Seq<u32>| #[trigger]
                    o.is_file_chain(self.first_clus as int, s) && o.sound() && o.chain_fresh(
                        self.first_clus,
                    ) implies false by {
                    assert(o.is_chain(first as int, s));
                    assert(chain@ == s);
                }
            }
            return Ok(0);
        }
        let ghost c = *sb;
        proof {
            c.lemma_chains_insert(o, first, chain@);
        }
        let r = sb.read_chain(&chain, offset, total, buf);
        proof {
            let f = *sb;
            f.lemma_same_source(c);
            if o.sound() {
                assert(f.same_data(c));
                f.lemma_same_data_trans(c, o);
                assert forall|x: int| o.has_entry(x) implies #[trigger] f.entry(x) == o.entry(x) by {
                    assert(f.entry(x) == c.entry(x));
                }
            }
            if r is Ok {
                let n = r->Ok_0 as int;
                assert forall|s: Seq<u32>| #[trigger]
                    o.is_file_chain(first as int, s) && o.sound() && o.chain_fresh(
                        first,
                    ) implies n == o.chain_avail(s, offset as int, total as int) && buf@.subrange(
                    0,
                    n,
                ) == o.chain_range(s, offset as int, n) by {
                    assert(o.is_chain(first as int, s));
                    assert(chain@ == s);
                    assert forall|k: int| 0 <= k < s.len() implies 2 <= #[trigger] s[k] by {
                        assert(o.is_cluster(s[k] as int));
                    }
                    lemma_chain_range_same(o, c, s, offset as int, n);
                }
            }
        }
        r
    }
}

impl Fat32Inode {
    /// The name under which the file is known to caches: names that differ in letter case
    /// only are one.
    pub fn canonical_name(&self, name: &str) -> (r: String)
        ensures
            r@ == text::lower(name@),
    {
        text::to_lower(name)
    }

    pub open spec fn shown_size(self) -> u64 {
        if self.file_type == FileType::Directory {
            0
        } else {
            self.size as u64
        }
    }

    pub fn getattr(&self) -> (r: Stat)
        ensures
            r == (Stat {
                ino: self.ino,
                size: self.shown_size(),
                file_type: self.file_type,
                mtime: self.mtime,
                mode: if self.file_type == FileType::Directory {
                    0o755
                } else {
                    0o644
                },
            }),
    {
        Stat {
            ino: self.ino,
            size: self.size(),
            file_type: self.file_type,
            mtime: self.mtime,
            mode: if self.file_type == FileType::Directory {
                0o755
            } else {
                0o644
            },
        }
    }

    pub fn file_type(&self) -> (r: FileType)
        ensures
            r == self.file_type,
    {
        self.file_type
    }

    pub fn ino(&self) -> (r: u64)
        ensures
            r == self.ino,
    {
        self.ino
    }

    pub fn size(&self) -> (r: u64)
        ensures
            r == self.shown_size(),
    {
        if self.file_type == FileType::Directory {
            0
        } else {
            self.size as u64
        }
    }

    /// Tells the file that its name is gone.
    pub fn on_unlink<D: BlockDevice>(&self, sb: &mut Fat32SuperBlock<D>)
        ensures
            final(sb).unlinked_set() == old(sb).unlinked_set().insert(self.handle),
            final(sb).orphans() == old(sb).orphans(),
            *final(sb) == (Fat32SuperBlock {
                unlinked_handles: final(sb).unlinked_handles,
                ..*old(sb)
            }),
            self.is_unlinked(*final(sb)),
    {
        sb.unlinked_handles.handles.insert(self.handle);
    }

    /// Writes all that is still to be written of the volume.
    pub fn flush<D: BlockDevice>(&self, sb: &mut Fat32SuperBlock<D>) -> (r: Result<(), VfsError>)
        requires
            old(sb).inv(),
        ensures
            final(sb).inv(),
            final(sb).same_rest(*old(sb)),
            match r {
                Ok(_) => final(sb).synced(*old(sb)),
                Err(e) => e == VfsError::IOError && final(sb).faults() > old(sb).faults(),
            },
    {
        sb.sync_all()
    }

    /// Gives the handle back. A file whose name is gone loses its clusters with the last
    /// handle that is open on it, as far as the device lets that happen.
    pub fn close<D: BlockDevice>(self, sb: &mut Fat32SuperBlock<D>)
        requires
            old(sb).inv(),
        ensures
            final(sb).inv(),
            final(sb).open_set() == old(sb).open_set().remove(self.handle),
            if self.is_unlinked(*old(sb)) {
                let (left, due) = orphans::after_leaving(
                    old(sb).orphans(),
                    self.handle,
                    self.first_clus,
                );
                &&& final(sb).orphans() == left
                &&& exists|m: Fat32SuperBlock<D>|
                    {
                        &&& m == (Fat32SuperBlock {
                            open_handles: m.open_handles,
                            unlinked_handles: m.unlinked_handles,
                            ..*old(sb)
                        })
                        &&& m.unlinked_set() == old(sb).unlinked_set()
                        &&& #[trigger] final(sb).chains_let_go(m, due, due.len() as int)
                    }
            } else {
                *final(sb) == (Fat32SuperBlock {
                    open_handles: final(sb).open_handles,
                    ..*old(sb)
                })
            },
    {
        sb.open_handles.remove(self.handle);
        if !self.unlinked(sb) {
            return;
        }
        let due: Vec<u32> = sb.unlinked_handles.leave(self.handle, self.first_clus);
        let ghost m = *sb;
        let mut i: usize = 0;
        while i < due.len()
            invariant
                i <= due@.len(),
                sb.inv(),
                sb.unlinked_handles == m.unlinked_handles,
                sb.open_handles == m.open_handles,
                sb.chains_let_go(m, due@, i as int),
            decreases due@.len() - i,
        {
            let ghost was = *sb;
            sb.let_chain_go(due[i]);
            assert(was.chains_let_go(m, due@, (i + 1) - 1) && sb.chain_let_go(
                was,
                due@[(i + 1) - 1],
            ));
            assert(sb.chains_let_go(m, due@, i + 1));
            i = i + 1;
        }
        proof {
            let o = *old(sb);
            let (left, all) = orphans::after_leaving(o.orphans(), self.handle, self.first_clus);
            assert(sb.orphans() == left && due@ == all);
            assert(m.unlinked_set() == o.unlinked_set());
            assert(sb.chains_let_go(m, all, all.len() as int));
        }
    }
}

/// What a chain holds is the same where its clusters are.
pub proof fn lemma_chain_range_same<D: BlockDevice>(
    o: Fat32SuperBlock<D>,
    c: Fat32SuperBlock<D>,
    s: Seq<u32>,
    off: int,
    n: int,
)
    requires
        o.bpb.wf(),
        c.bpb == o.bpb,
        c.same_data(o),
        0 <= off,
        0 <= n <= o.chain_avail(s, off, n),
    ensures
        c.chain_range(s, off, n) == o.chain_range(s, off, n),
{
    let a = o.chain_range(s, off, n);
    let b = c.chain_range(s, off, n);
    assert forall|i: int| 0 <= i < n implies #[trigger] b[i] == a[i] by {
        o.lemma_chain_pos(s, off + i);
        let k = (off + i) / (o.bpb.byts_per_clus as int);
        c.lemma_data_same(o, s[k] as int);
    }
    assert(c.chain_range(s, off, n) =~= o.chain_range(s, off, n));
}

} // verus!
