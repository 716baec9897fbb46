//! The file systems that can be mounted, by name.

use vstd::prelude::*;
use crate::blockdriver::traits::BlockDevice;
use crate::fat32::inode::Fat32Inode;
use crate::fat32::mount::Fat32FileSystem;
use crate::fat32::superblock::Fat32SuperBlock;
use crate::ntfs::detail::LastError;
use crate::ntfs::inode::NtfsInode;
use crate::ntfs::mount::NtfsFileSystem;
use crate::ntfs::volume::NtfsSuperBlock;
use crate::text::same_text;
use crate::tmpfs::inode::Tmpfs;
use crate::tmpfs::volume::TmpfsVolume;
use crate::vfs::VfsError;

verus! {

/// A mounted volume and its root.
pub enum Mounted<D: BlockDevice> {
    Tmpfs(TmpfsVolume, u64),
    Fat32(Fat32SuperBlock<D>, Fat32Inode),
    Ntfs(NtfsSuperBlock<D>, NtfsInode),
}

/// A kind of file system. What it makes of a device has a default, so that one that is only
/// used need not say it: some constant of its type, of which nothing can be proved.
pub trait FileSystem<D: BlockDevice> {
    /// Its name.
    open spec fn title(&self) -> Seq<char> {
        vstd::pervasive::arbitrary()
    }

    /// The device is one that it can be asked to mount.
    open spec fn takes(&self, device: Option<D>) -> bool {
        vstd::pervasive::arbitrary()
    }

    /// What mounting the device gives.
    open spec fn gives(&self, device: Option<D>, r: Result<Mounted<D>, VfsError>) -> bool {
        vstd::pervasive::arbitrary()
    }

    fn name(&self) -> (r: &str)
        ensures
            r@ == self.title(),
    ;

    fn mount(&self, device: Option<D>) -> (r: Result<Mounted<D>, VfsError>)
        requires
            self.takes(device),
        ensures
            self.gives(device, r),
    ;
}

impl<D: BlockDevice> FileSystem<D> for Tmpfs {
    open spec fn title(&self) -> Seq<char> {
        "tmpfs"@
    }

    open spec fn takes(&self, device: Option<D>) -> bool {
        true
    }

    /// The device plays no part.
    open spec fn gives(&self, device: Option<D>, r: Result<Mounted<D>, VfsError>) -> bool {
        r matches Ok(Mounted::Tmpfs(vol, root)) && vol.inv() && crate::tmpfs::inode::is_new(
            vol,
            root,
        )
    }

    fn name(&self) -> (r: &str) {
        "tmpfs"
    }

    fn mount(&self, device: Option<D>) -> (r: Result<Mounted<D>, VfsError>) {
        let (vol, root): (TmpfsVolume, u64) = Tmpfs::mount(self);
        Ok(Mounted::Tmpfs(vol, root))
    }
}

impl<D: BlockDevice> FileSystem<D> for Fat32FileSystem {
    open spec fn title(&self) -> Seq<char> {
        "fat32"@
    }

    open spec fn takes(&self, device: Option<D>) -> bool {
        device matches Some(d) ==> d.sector_len() == crate::fat32::io::SECTOR_SIZE
    }

    open spec fn gives(&self, device: Option<D>, r: Result<Mounted<D>, VfsError>) -> bool {
        match r {
            Ok(Mounted::Fat32(sb, root)) => crate::fat32::mount::mount_gives(
                device,
                Ok::<(Fat32SuperBlock<D>, Fat32Inode), VfsError>((sb, root)),
            ),
            Ok(_) => false,
            Err(e) => crate::fat32::mount::mount_gives(
                device,
                Err::<(Fat32SuperBlock<D>, Fat32Inode), VfsError>(e),
            ),
        }
    }

    fn name(&self) -> (r: &str) {
        "fat32"
    }

    fn mount(&self, device: Option<D>) -> (r: Result<Mounted<D>, VfsError>) {
        match Fat32FileSystem::mount(self, device) {
            Ok((sb, root)) => Ok(Mounted::Fat32(sb, root)),
            Err(e) => Err(e),
        }
    }
}

/// What mounting the device as NTFS gives, with the detail left out.
pub open spec fn ntfs_gives<D: BlockDevice>(
    device: Option<D>,
    r: Result<(NtfsSuperBlock<D>, NtfsInode), VfsError>,
) -> bool {
    exists|text: Option<Seq<char>>| #[trigger] crate::ntfs::mount::mount_gives(device, r, text)
}

impl<D: BlockDevice> FileSystem<D> for NtfsFileSystem {
    open spec fn title(&self) -> Seq<char> {
        "ntfs"@
    }

    open spec fn takes(&self, device: Option<D>) -> bool {
        device matches Some(d) ==> d.sector_len() == 512
    }

    open spec fn gives(&self, device: Option<D>, r: Result<Mounted<D>, VfsError>) -> bool {
        match r {
            Ok(Mounted::Ntfs(sb, root)) => ntfs_gives(
                device,
                Ok::<(NtfsSuperBlock<D>, NtfsInode), VfsError>((sb, root)),
            ),
            Ok(_) => false,
            Err(e) => ntfs_gives(device, Err::<(NtfsSuperBlock<D>, NtfsInode), VfsError>(e)),
        }
    }

    fn name(&self) -> (r: &str) {
        "ntfs"
    }

    fn mount(&self, device: Option<D>) -> (r: Result<Mounted<D>, VfsError>) {
        let mut why = LastError::new();
        let r = NtfsFileSystem::mount(self, device, &mut why);
        assert(ntfs_gives(device, r));
        match r {
            Ok((sb, root)) => Ok(Mounted::Ntfs(sb, root)),
            Err(e) => Err(e),
        }
    }
}

/// A kind of file system that was registered.
#[verifier::reject_recursive_types(D)]
pub enum Entry<D: BlockDevice> {
    Tmpfs(Tmpfs),
    Fat32(Fat32FileSystem),
    Other(Box<dyn FileSystem<D>>),
}

impl<D: BlockDevice> Entry<D> {
    pub open spec fn title(&self) -> Seq<char> {
        match self {
            Entry::Tmpfs(fs) => FileSystem::<D>::title(fs),
            Entry::Fat32(fs) => FileSystem::<D>::title(fs),
            Entry::Other(fs) => fs.title(),
        }
    }

    pub open spec fn takes(&self, device: Option<D>) -> bool {
        match self {
            Entry::Tmpfs(fs) => fs.takes(device),
            Entry::Fat32(fs) => fs.takes(device),
            Entry::Other(fs) => fs.takes(device),
        }
    }

    pub open spec fn gives(&self, device: Option<D>, r: Result<Mounted<D>, VfsError>) -> bool {
        match self {
            Entry::Tmpfs(fs) => fs.gives(device, r),
            Entry::Fat32(fs) => fs.gives(device, r),
            Entry::Other(fs) => fs.gives(device, r),
        }
    }

    pub fn name(&self) -> (r: &str)
        ensures
            r@ == self.title(),
    {
        match self {
            Entry::Tmpfs(fs) => FileSystem::<D>::name(fs),
            Entry::Fat32(fs) => FileSystem::<D>::name(fs),
            Entry::Other(fs) => fs.name(),
        }
    }

    pub fn mount(&self, device: Option<D>) -> (r: Result<Mounted<D>, VfsError>)
        requires
            self.takes(device),
        ensures
            self.gives(device, r),
    {
        match self {
            Entry::Tmpfs(fs) => FileSystem::<D>::mount(fs, device),
            Entry::Fat32(fs) => FileSystem::<D>::mount(fs, device),
            Entry::Other(fs) => fs.mount(device),
        }
    }
}

/// The kinds of file systems, in the order in which they were registered.
#[verifier::reject_recursive_types(D)]
pub struct Registry<D: BlockDevice> {
    pub types: Vec<Entry<D>>,
}

impl<D: BlockDevice> Registry<D> {
    pub fn new() -> (r: Self)
        ensures
            r.types@ == Seq::<Entry<D>>::empty(),
    {
        Registry { types: Vec::new() }
    }
}

pub fn register<D: BlockDevice>(reg: &mut Registry<D>, fs: Entry<D>)
    ensures
        final(reg).types@ == old(reg).types@.push(fs),
{
    reg.types.push(fs);
}

/// Registers the kinds that are always there.
pub fn register_all<D: BlockDevice>(reg: &mut Registry<D>)
    ensures
        final(reg).types@ == old(reg).types@.push(Entry::Tmpfs(Tmpfs)).push(
            Entry::Fat32(Fat32FileSystem),
        ),
{
    register(reg, Entry::Tmpfs(Tmpfs));
    register(reg, Entry::Fat32(Fat32FileSystem));
}

/// The first kind with the name.
pub open spec fn first_named<D: BlockDevice>(types: Seq<Entry<D>>, name: Seq<char>) -> Option<
    Entry<D>,
>
    decreases types.len(),
{
    if types.len() == 0 {
        None
    } else {
        match first_named(types.drop_last(), name) {
            Some(fs) => Some(fs),
            None => if types.last().title() == name {
                Some(types.last())
            } else {
                None
            },
        }
    }
}

proof fn lemma_found_early<D: BlockDevice>(types: Seq<Entry<D>>, name: Seq<char>, n: int)
    requires
        0 <= n <= types.len(),
        first_named(types.take(n), name) is Some,
    ensures
        first_named(types, name) == first_named(types.take(n), name),
    decreases types.len(),
{
    if n < types.len() {
        assert(types.drop_last().take(n) =~= types.take(n));
        lemma_found_early(types.drop_last(), name, n);
    } else {
        assert(types.take(n) =~= types);
    }
}

/// The first kind with the name.
pub fn lookup<'a, D: BlockDevice>(reg: &'a Registry<D>, name: &str) -> (r: Option<&'a Entry<D>>)
    ensures
        match r {
            Some(fs) => first_named(reg.types@, name@) == Some(*fs),
            None => first_named(reg.types@, name@) is None,
        },
{
    let mut i: usize = 0;
    while i < reg.types.len()
        invariant
            i <= reg.types@.len(),
            first_named(reg.types@.take(i as int), name@) is None,
        decreases reg.types@.len() - i,
    {
        let fs: &Entry<D> = &reg.types[i];
        assert(reg.types@.take(i + 1).drop_last() =~= reg.types@.take(i as int));
        if same_text(fs.name(), name) {
            proof {
                lemma_found_early(reg.types@, name@, i + 1);
            }
            return Some(fs);
        }
        i = i + 1;
    }
    assert(reg.types@.take(i as int) =~= reg.types@);
    None
}

/// What is registered is found under its name, unless something of that name was
/// registered before, which is found still. Other names are not affected.
pub proof fn law_first_registration_wins<D: BlockDevice>(
    types: Seq<Entry<D>>,
    fs: Entry<D>,
    name: Seq<char>,
)
    ensures
        first_named(types, name) is Some ==> first_named(types.push(fs), name) == first_named(
            types,
            name,
        ),
        first_named(types, name) is None && fs.title() == name ==> first_named(
            types.push(fs),
            name,
        ) == Some(fs),
        fs.title() != name ==> first_named(types.push(fs), name) == first_named(types, name),
{
    assert(types.push(fs).drop_last() =~= types);
}

/// Both built-in kinds are found, each under its own name.
pub proof fn law_built_in_are_found<D: BlockDevice>()
    ensures
        ({
            let types = Seq::<Entry<D>>::empty().push(Entry::Tmpfs(Tmpfs)).push(
                Entry::Fat32(Fat32FileSystem),
            );
            &&& first_named(types, "tmpfs"@) == Some(Entry::<D>::Tmpfs(Tmpfs))
            &&& first_named(types, "fat32"@) == Some(Entry::<D>::Fat32(Fat32FileSystem))
        }),
{
    reveal_strlit("tmpfs");
    reveal_strlit("fat32");
    assert("tmpfs"@[0] != "fat32"@[0]);
    let none = Seq::<Entry<D>>::empty();
    law_first_registration_wins(none, Entry::Tmpfs(Tmpfs), "tmpfs"@);
    law_first_registration_wins(none, Entry::Tmpfs(Tmpfs), "fat32"@);
    law_first_registration_wins(
        none.push(Entry::Tmpfs(Tmpfs)),
        Entry::Fat32(Fat32FileSystem),
        "tmpfs"@,
    );
    law_first_registration_wins(
        none.push(Entry::Tmpfs(Tmpfs)),
        Entry::Fat32(Fat32FileSystem),
        "fat32"@,
    );
}

} // verus!
