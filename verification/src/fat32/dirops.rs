//! Operations on directories.

use std::sync::Arc;
use vstd::prelude::*;

use crate::blockdriver::traits::BlockDevice;
use crate::fat32::dir;
use crate::fat32::dir::decode_entry_name;
use crate::fat32::dirent;
use crate::fat32::dirent::{
    file_size_from_entry, first_clus_from_entry, mtime_from_entry, DirEntrySlot,
};
use crate::fat32::handles;
use crate::fat32::inode::Fat32Inode;
use crate::fat32::names;
use crate::fat32::names::find_slot;
use crate::fat32::superblock::Fat32SuperBlock;
use crate::text;
use crate::vfs::{DirEntry, FileType, VfsError};
use crate::text::same_text;

verus! {

/// The type of a file by its attributes.
pub open spec fn type_of(attr: u8) -> FileType {
    if dir::is_directory(attr) {
        FileType::Directory
    } else {
        FileType::Regular
    }
}

fn file_type_of(attr: u8) -> (r: FileType)
    ensures
        r == type_of(attr),
{
    if attr / 16 % 2 == 1 {
        FileType::Directory
    } else {
        FileType::Regular
    }
}

impl<D: BlockDevice> Fat32SuperBlock<D> {
    /// What a directory with the clusters `d` lists.
    pub open spec fn listing(self, d: Seq<u32>) -> Seq<dir::SlotView> {
        dir::dir_files(self.chain_bytes(d))
    }

    /// The inode number of a place: the one given before, or else the next one.
    pub open spec fn ino_at(self, parent: u32, name: Seq<char>) -> u64 {
        let key = (parent, text::lower(name));
        if self.inos().contains_key(key) {
            self.inos()[key]
        } else {
            self.next_ino
        }
    }

    /// From `m`, the place has its inode number, and the next handle is given out. If
    /// `registered`, it is open on the place.
    pub open spec fn opened(self, m: Self, parent: u32, name: Seq<char>, registered: bool) -> bool {
        let key = (parent, text::lower(name));
        &&& self.inos() == m.inos().insert(key, m.ino_at(parent, name))
        &&& self.next_ino == (if m.inos().contains_key(key) {
            m.next_ino
        } else {
            m.next_ino.wrapping_add(1)
        })
        &&& self.next_handle == m.next_handle.wrapping_add(1)
        &&& self.handles() == (if registered {
            m.handles().insert(
                key,
                handles::live(m.handles_at(parent, name), m.open_set()).push(m.next_handle),
            )
        } else {
            m.handles()
        })
        &&& self.open_set() == (if registered {
            m.open_set().insert(m.next_handle)
        } else {
            m.open_set()
        })
        &&& self == (Fat32SuperBlock {
            ino_map: self.ino_map,
            next_ino: self.next_ino,
            handle_registry: self.handle_registry,
            open_handles: self.open_handles,
            next_handle: self.next_handle,
            ..m
        })
    }

    /// What a directory lists is the same where the volume is.
    pub proof fn lemma_quiet_listing(self, o: Self, d: Seq<u32>)
        requires
            o.sound(),
            self.quiet(o),
        ensures
            self.listing(d) == o.listing(d),
    {
        let n = d.len() * o.bpb.byts_per_clus;
        assert(self.chain_bytes(d) =~= o.chain_bytes(d)) by {
            assert forall|i: int| 0 <= i < n implies #[trigger] self.chain_bytes(d)[i]
                == o.chain_bytes(d)[i] by {
                o.lemma_chain_pos(d, i);
                self.lemma_data_same(o, d[i / (o.bpb.byts_per_clus as int)] as int);
            }
        }
    }
}

impl Fat32Inode {
    /// `d` are the clusters of the directory, and what is remembered of its listing is
    /// right.
    pub open spec fn lists<D: BlockDevice>(self, sb: Fat32SuperBlock<D>, d: Seq<u32>) -> bool {
        &&& sb.sound()
        &&& sb.is_file_chain(self.first_clus as int, d)
        &&& match self.dir_cache {
            Some((g, slots)) => g == self.dir_generation ==> dir::slot_views(slots@) == sb.listing(
                d,
            ),
            None => true,
        }
    }

    /// The listing is remembered, and the directory has not changed since.
    pub open spec fn has_listing(self) -> bool {
        self.dir_cache matches Some((g, slots)) && g == self.dir_generation
    }

    /// `files` is the listing that is remembered.
    pub open spec fn remembers(self, files: Seq<DirEntrySlot>) -> bool {
        self.dir_cache matches Some((g, slots)) && g == self.dir_generation && slots@ == files
    }

    /// All but what is remembered of the listing is as in `o`.
    pub open spec fn same_but_cache(self, o: Self) -> bool {
        self == (Fat32Inode { dir_cache: self.dir_cache, ..o })
    }

    /// What is remembered of the listing no longer counts.
    pub open spec fn listing_changed(self, o: Self) -> bool {
        self == (Fat32Inode {
            dir_cache: self.dir_cache,
            dir_generation: o.dir_generation.wrapping_add(1),
            ..o
        })
    }

    /// The listing of the directory, which is read once and then remembered until the
    /// directory changes.
    pub fn get_dir_slots<D: BlockDevice>(&mut self, sb: &mut Fat32SuperBlock<D>) -> (r: Result<
        Arc<Vec<DirEntrySlot>>,
        VfsError,
    >)
        requires
            old(sb).inv(),
        ensures
            final(sb).quiet(*old(sb)),
            final(self).same_but_cache(*old(self)),
            match r {
                Ok(v) => final(self).remembers(v@) && forall|d: Seq<u32>| #[trigger]
                    old(self).lists(*old(sb), d) ==> dir::slot_views(v@) == old(sb).listing(d)
                        && final(self).lists(*final(sb), d),
                Err(e) => e == VfsError::IOError && *final(self) == *old(self) && (
                old(sb).has_chain(old(self).first_clus as int) ==> final(sb).faults()
                    > old(sb).faults()),
            },
            old(self).has_listing() ==> r is Ok && *final(sb) == *old(sb) && *final(self)
                == *old(self),
    {
        match &self.dir_cache {
            Some((g, slots)) => {
                if *g == self.dir_generation {
                    return Ok(slots.clone());
                }
            },
            None => {},
        }
        let ghost o = *sb;
        let slots: Arc<Vec<DirEntrySlot>> = match sb.read_dir_slots(self.first_clus) {
            Ok(v) => Arc::new(v),
            Err(e) => return Err(e),
        };
        self.dir_cache = Some((self.dir_generation, slots.clone()));
        proof {
            let f = *sb;
            assert forall|d: Seq<u32>| #[trigger] old(self).lists(o, d) implies dir::slot_views(
                slots@,
            ) == o.listing(d) && self.lists(f, d) by {
                f.lemma_quiet_listing(o, d);
                crate::fat32::file_write::lemma_chain_same(o, f, self.first_clus as int, d);
            }
        }
        Ok(slots)
    }

    /// The file that `lookup` of `name` gives for the entry `e`.
    pub open spec fn node_of(
        self,
        e: Seq<u8>,
        name: Seq<char>,
        root: u32,
        ino: u64,
        handle: u64,
        node: Fat32Inode,
    ) -> bool {
        &&& node.first_clus == (if name == ".."@ && dirent::entry_cluster(e) == 0 {
            root as int
        } else {
            dirent::entry_cluster(e)
        })
        &&& node.size == dirent::entry_size(e)
        &&& node.file_type == type_of(e[11])
        &&& node.mtime == dirent::entry_mtime(e)
        &&& node.placed_at(self.first_clus, name, ino, handle)
    }

    /// The file stands in the directory whose first cluster is `parent`, under `name`.
    pub open spec fn placed_at(self, parent: u32, name: Seq<char>, ino: u64, handle: u64) -> bool {
        &&& self.ino == ino
        &&& self.parent_clus == parent
        &&& self.entry_name@ == name
        &&& self.handle == handle
        &&& self.dir_cache is None
        &&& self.dir_generation == 0
    }

    /// Gives out a handle for the file of an entry.
    fn open_slot<D: BlockDevice>(
        &self,
        sb: &mut Fat32SuperBlock<D>,
        entry: &[u8; 32],
        name: &str,
    ) -> (r: Fat32Inode)
        ensures
            self.node_of(
                entry@,
                name@,
                old(sb).bpb.root_clus,
                old(sb).ino_at(self.first_clus, name@),
                old(sb).next_handle,
                r,
            ),
            final(sb).opened(*old(sb), self.first_clus, name@, name@ != ".."@),
    {
        let fc: u32 = first_clus_from_entry(entry);
        let up = same_text(name, "..");
        let actual: u32 = if up && fc == 0 {
            sb.bpb.root_clus
        } else {
            fc
        };
        let ghost key = (self.first_clus, text::lower(name@));
        let ghost m = *sb;
        let ino: u64 = sb.ino_for(self.first_clus, name);
        proof {
            assert(m.inos().contains_key(key) ==> m.inos().insert(key, ino) =~= m.inos());
        }
        let handle: u64 = sb.new_handle();
        if !up {
            sb.register_handle(self.first_clus, name, handle);
        }
        Fat32Inode {
            first_clus: actual,
            size: file_size_from_entry(entry),
            file_type: file_type_of(entry[0x0B]),
            ino,
            mtime: mtime_from_entry(entry),
            parent_clus: self.first_clus,
            entry_name: name.to_string(),
            handle,
            dir_cache: None,
            dir_generation: 0,
        }
    }

    /// Opens the file with the name, whatever the letter case.
    pub fn lookup<D: BlockDevice>(&mut self, sb: &mut Fat32SuperBlock<D>, name: &str) -> (r: Result<
        Fat32Inode,
        VfsError,
    >)
        requires
            old(sb).inv(),
        ensures
            final(sb).inv(),
            final(self).same_but_cache(*old(self)),
            old(self).file_type != FileType::Directory ==> r == Err::<Fat32Inode, VfsError>(
                VfsError::NotADirectory,
            ) && *final(self) == *old(self) && *final(sb) == *old(sb),
            old(self).file_type == FileType::Directory ==> match r {
                Ok(node) => exists|m: Fat32SuperBlock<D>|
                    #[trigger] m.quiet(*old(sb)) && final(sb).opened(
                        m,
                        old(self).first_clus,
                        name@,
                        name@ != ".."@,
                    ) && forall|d: Seq<u32>| #[trigger]
                        old(self).lists(*old(sb), d) ==> (names::first_named(
                            old(sb).listing(d),
                            name@,
                            0,
                        ) matches Some(k) && old(self).node_of(
                            old(sb).listing(d)[k].sfn,
                            name@,
                            old(sb).bpb.root_clus,
                            old(sb).ino_at(old(self).first_clus, name@),
                            old(sb).next_handle,
                            node,
                        )),
                Err(VfsError::NotFound) => final(sb).quiet(*old(sb)) && forall|d: Seq<u32>|
                 #[trigger]
                    old(self).lists(*old(sb), d) ==> names::first_named(
                        old(sb).listing(d),
                        name@,
                        0,
                    ) is None,
                Err(e) => e == VfsError::IOError && final(sb).quiet(*old(sb)) && (
                old(sb).has_chain(old(self).first_clus as int) ==> final(sb).faults()
                    > old(sb).faults()) && !(old(self).has_listing() && name@ != ".."@),
            },
    {
        if self.file_type != FileType::Directory {
            return Err(VfsError::NotADirectory);
        }
        let ghost o = *sb;
        let slots: Arc<Vec<DirEntrySlot>> = if same_text(name, "..") {
            match sb.read_dir_slots(self.first_clus) {
                Ok(v) => Arc::new(v),
                Err(e) => return Err(e),
            }
        } else {
            match self.get_dir_slots(sb) {
                Ok(v) => v,
                Err(e) => return Err(e),
            }
        };
        proof {
            assert forall|d: Seq<u32>| #[trigger] old(self).lists(o, d) implies dir::slot_views(
                slots@,
            ) == o.listing(d) by {
                assert(o.is_file_chain(self.first_clus as int, d));
            }
        }
        match find_slot(&slots, name) {
            Some(k) => {
                let ghost m = *sb;
                let node: Fat32Inode = self.open_slot(sb, &slots[k].sfn_entry, name);
                proof {
                    assert(dir::slot_views(slots@)[k as int].sfn == slots@[k as int].sfn_entry@);
                    assert(m.ino_at(self.first_clus, name@) == o.ino_at(self.first_clus, name@));
                    assert(m.quiet(o));
                }
                Ok(node)
            },
            None => Err(VfsError::NotFound),
        }
    }
}

/// One line of a listing.
pub struct Line {
    pub ino: u64,
    pub name: Seq<char>,
    pub file_type: FileType,
}

/// The files that a listing shows: not those without a name, nor the entries of a
/// directory for itself and its parent.
pub open spec fn is_shown(s: dir::SlotView) -> bool {
    let n = dir::slot_name(s);
    n.len() > 0 && n != "."@ && n != ".."@
}

/// What the first `n` of `files` give, where `inos` are the numbers that were given before
/// and `next` is the next one: the lines, the numbers and the next number.
pub open spec fn lines_of(
    files: Seq<dir::SlotView>,
    n: int,
    parent: u32,
    inos: Map<(u32, Seq<char>), u64>,
    next: u64,
) -> (Seq<Line>, Map<(u32, Seq<char>), u64>, u64)
    decreases n,
{
    if n <= 0 {
        (Seq::empty(), inos, next)
    } else {
        let (lines, map, free) = lines_of(files, n - 1, parent, inos, next);
        let s = files[n - 1];
        if is_shown(s) {
            let name = dir::slot_name(s);
            let key = (parent, text::lower(name));
            let ino = if map.contains_key(key) {
                map[key]
            } else {
                free
            };
            (
                lines.push(Line { ino, name, file_type: type_of(s.sfn[11]) }),
                map.insert(key, ino),
                if map.contains_key(key) {
                    free
                } else {
                    free.wrapping_add(1)
                },
            )
        } else {
            (lines, map, free)
        }
    }
}

/// The lines that a listing is shown as.
pub open spec fn line_views(v: Seq<DirEntry>) -> Seq<Line> {
    v.map_values(|e: DirEntry| Line { ino: e.ino, name: e.name@, file_type: e.file_type })
}

impl<D: BlockDevice> Fat32SuperBlock<D> {
    /// From `m`, only inode numbers were given.
    pub open spec fn numbered(self, m: Self) -> bool {
        self == (Fat32SuperBlock { ino_map: self.ino_map, next_ino: self.next_ino, ..m })
    }
}

impl Fat32Inode {
    /// The names in the directory.
    pub fn readdir<D: BlockDevice>(&mut self, sb: &mut Fat32SuperBlock<D>) -> (r: Result<
        Vec<DirEntry>,
        VfsError,
    >)
        requires
            old(sb).inv(),
        ensures
            final(sb).inv(),
            final(self).same_but_cache(*old(self)),
            old(self).file_type != FileType::Directory ==> r == Err::<Vec<DirEntry>, VfsError>(
                VfsError::NotADirectory,
            ) && *final(self) == *old(self) && *final(sb) == *old(sb),
            old(self).file_type == FileType::Directory ==> match r {
                Ok(v) => (exists|m: Fat32SuperBlock<D>|
                    #[trigger] m.quiet(*old(sb)) && final(sb).numbered(m)) && forall|d: Seq<u32>|
                 #[trigger]
                    old(self).lists(*old(sb), d) ==> ({
                        let files = old(sb).listing(d);
                        (line_views(v@), final(sb).inos(), final(sb).next_ino) == lines_of(
                            files,
                            files.len() as int,
                            old(self).first_clus,
                            old(sb).inos(),
                            old(sb).next_ino,
                        )
                    }),
                Err(e) => e == VfsError::IOError && final(sb).quiet(*old(sb)) && (
                old(sb).has_chain(old(self).first_clus as int) ==> final(sb).faults()
                    > old(sb).faults()) && !old(self).has_listing(),
            },
    {
        if self.file_type != FileType::Directory {
            return Err(VfsError::NotADirectory);
        }
        let ghost o = *sb;
        let slots: Arc<Vec<DirEntrySlot>> = match self.get_dir_slots(sb) {
            Ok(v) => v,
            Err(e) => return Err(e),
        };
        let ghost m = *sb;
        let ghost files = dir::slot_views(slots@);
        let mut entries: Vec<DirEntry> = Vec::new();
        let parent: u32 = self.first_clus;
        let mut i: usize = 0;
        assert(line_views(entries@) =~= Seq::<Line>::empty());
        while i < slots.len()
            invariant
                i <= slots@.len(),
                files == dir::slot_views(slots@),
                sb.numbered(m),
                (line_views(entries@), sb.inos(), sb.next_ino) == lines_of(
                    files,
                    i as int,
                    parent,
                    m.inos(),
                    m.next_ino,
                ),
            decreases slots@.len() - i,
        {
            let ghost before = entries@;
            let ghost was = *sb;
            assert(files[i as int] == slots@[i as int]@);
            let name: String = decode_entry_name(&slots[i]);
            if !(name.as_str().is_empty() || same_text(name.as_str(), ".") || same_text(
                name.as_str(),
                "..",
            )) {
                let ghost key = (parent, text::lower(name@));
                let ino: u64 = sb.ino_for(parent, name.as_str());
                assert(was.inos().contains_key(key) ==> was.inos().insert(key, ino) =~= was.inos());
                let file_type: FileType = file_type_of(slots[i].sfn_entry[0x0B]);
                let ghost line = Line { ino, name: name@, file_type };
                entries.push(DirEntry { ino, name, file_type });
                assert(line_views(entries@) =~= line_views(before).push(line));
            }
            i = i + 1;
        }
        assert(m.quiet(o) && sb.numbered(m));
        Ok(entries)
    }
}

} // verus!
