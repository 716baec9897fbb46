//! Finding names in listings, and the entries that a new name takes.

use vstd::prelude::*;
use vstd::utf8;

use crate::collections;
use crate::collections::SfnSet;
use crate::fat32::dir;
use crate::fat32::dir::{decode_entry_name, sfn_in, SlotView};
use crate::fat32::dirent;
use crate::fat32::dirent::{
    encode_vfat_entries, needs_vfat, nt_case_flags, set_file_size_in_entry,
    set_first_clus_in_entry, set_timestamps, sfn_from_name, vfat_checksum, DirEntrySlot,
};
use crate::text;
use crate::text::same_ignoring_case;
use crate::vfs::VfsError;

verus! {

/// The first of the files from `from` on that has the name, whatever the letter case.
pub open spec fn first_named(files: Seq<SlotView>, name: Seq<char>, from: int) -> Option<int>
    decreases files.len() - from,
{
    if from < 0 || from >= files.len() {
        None
    } else if text::lower(dir::slot_name(files[from])) == text::lower(name) {
        Some(from)
    } else {
        first_named(files, name, from + 1)
    }
}

/// The first file in a listing that has the name, whatever the letter case.
pub fn find_slot(slots: &Vec<DirEntrySlot>, name: &str) -> (r: Option<usize>)
    ensures
        match r {
            Some(k) => first_named(dir::slot_views(slots@), name@, 0) == Some(k as int) && k
                < slots@.len(),
            None => first_named(dir::slot_views(slots@), name@, 0) is None,
        },
{
    let ghost files = dir::slot_views(slots@);
    let mut i: usize = 0;
    while i < slots.len()
        invariant
            i <= slots@.len(),
            files == dir::slot_views(slots@),
            first_named(files, name@, 0) == first_named(files, name@, i as int),
        decreases slots@.len() - i,
    {
        assert(files[i as int] == slots@[i as int]@);
        let found: String = decode_entry_name(&slots[i]);
        if same_ignoring_case(found.as_str(), name) {
            return Some(i);
        }
        i = i + 1;
    }
    None
}

/// The short names in a listing, without `except`.
pub open spec fn short_names(files: Seq<SlotView>, except: Option<Seq<u8>>) -> Set<Seq<u8>> {
    Set::new(
        |x: Seq<u8>|
            except != Some(x) && exists|k: int|
                0 <= k < files.len() && (#[trigger] files[k]).sfn.take(11) == x,
    )
}

/// The bytes of a short name, where there is one.
pub open spec fn sfn_view(s: Option<[u8; 11]>) -> Option<Seq<u8>> {
    match s {
        Some(b) => Some(b@),
        None => None,
    }
}

/// The two short names are equal.
pub fn same_sfn(a: &[u8; 11], b: &[u8; 11]) -> (r: bool)
    ensures
        r == (a@ == b@),
{
    let mut i: usize = 0;
    while i < 11
        invariant
            i <= 11,
            forall|k: int| 0 <= k < i ==> a@[k] == b@[k],
        decreases 11 - i,
    {
        if a[i] != b[i] {
            assert(a@[i as int] != b@[i as int]);
            return false;
        }
        i = i + 1;
    }
    assert(a@ =~= b@);
    true
}

fn collect_sfns(slots: &Vec<DirEntrySlot>, except: Option<[u8; 11]>) -> (r: SfnSet)
    ensures
        collections::sfn_set(r) == short_names(
            dir::slot_views(slots@),
            sfn_view(except),
        ),
{
    let mut set: SfnSet = SfnSet::new();
    let ghost files = dir::slot_views(slots@);
    let ghost ex = sfn_view(except);
    let mut i: usize = 0;
    while i < slots.len()
        invariant
            i <= slots@.len(),
            files == dir::slot_views(slots@),
            ex == (sfn_view(except)),
            forall|x: Seq<u8>| #[trigger]
                collections::sfn_set(set).contains(x) <==> ex != Some(x) && exists|k: int|
                    0 <= k < i && (#[trigger] files[k]).sfn.take(11) == x,
        decreases slots@.len() - i,
    {
        let sfn: [u8; 11] = sfn_in(&slots[i].sfn_entry);
        let ghost before = collections::sfn_set(set);
        assert(files[i as int].sfn.take(11) == sfn@);
        let skip = match &except {
            Some(e) => same_sfn(e, &sfn),
            None => false,
        };
        if !skip {
            set.insert(sfn);
        }
        assert forall|x: Seq<u8>| #[trigger] collections::sfn_set(set).contains(x) <==> ex
            != Some(x) && exists|k: int|
            0 <= k < i + 1 && (#[trigger] files[k]).sfn.take(11) == x by {
            assert(before.contains(x) <==> ex != Some(x) && exists|k: int|
                0 <= k < i && (#[trigger] files[k]).sfn.take(11) == x);
            if x == sfn@ {
                assert(files[i as int].sfn.take(11) == x);
            }
        }
        i = i + 1;
    }
    assert(collections::sfn_set(set) =~= short_names(files, ex));
    set
}

/// `s` is the short name for `name` where those of `used` are taken: the first candidate
/// that is not.
pub open spec fn is_short_name(name: Seq<char>, used: Set<Seq<u8>>, s: Seq<u8>) -> bool {
    let b = utf8::encode_utf8(name);
    &&& name.len() > 0
    &&& !used.contains(s)
    &&& exists|k: int|
        0 <= k <= 99999 && s == #[trigger] dirent::sfn_candidate(b, k) && forall|j: int|
            0 <= j < k ==> used.contains(#[trigger] dirent::sfn_candidate(b, j))
}

/// No short name is left for `name`.
pub open spec fn no_short_name(name: Seq<char>, used: Set<Seq<u8>>) -> bool {
    name.len() == 0 || forall|j: int|
        0 <= j <= 99999 ==> used.contains(
            #[trigger] dirent::sfn_candidate(utf8::encode_utf8(name), j),
        )
}

/// The short name for a new name in a listing; `except` is the short name of a file that
/// is about to go.
pub fn choose_sfn(slots: &Vec<DirEntrySlot>, name: &str, except: Option<[u8; 11]>) -> (r: Result<
    [u8; 11],
    VfsError,
>)
    ensures
        ({
            let used = short_names(
                dir::slot_views(slots@),
                sfn_view(except),
            );
            match r {
                Ok(s) => is_short_name(name@, used, s@),
                Err(e) => e == VfsError::InvalidInput && no_short_name(name@, used),
            }
        }),
{
    let used: SfnSet = collect_sfns(slots, except);
    match sfn_from_name(name, &used) {
        Some(s) => Ok(s),
        None => Err(VfsError::InvalidInput),
    }
}

/// The entry with a short name, where all that is not given is zero.
pub open spec fn short_entry(sfn: Seq<u8>, attr: u8, case: u8, clus: int, size: int) -> Seq<u8> {
    let head = Seq::new(
        32,
        |i: int|
            if i < 11 {
                sfn[i]
            } else if i == 11 {
                attr
            } else if i == 12 {
                case
            } else {
                0u8
            },
    );
    dirent::with_size(dirent::with_cluster(head, clus), size)
}

/// The entry with a short name.
pub fn make_entry(sfn: &[u8; 11], attr: u8, case: u8, clus: u32, size: u32) -> (r: [u8; 32])
    ensures
        r@ == short_entry(sfn@, attr, case, clus as int, size as int),
{
    let mut e: [u8; 32] = [0u8; 32];
    let mut i: usize = 0;
    while i < 11
        invariant
            i <= 11,
            forall|k: int| 0 <= k < i ==> e@[k] == sfn@[k],
            forall|k: int| i <= k < 32 ==> e@[k] == 0,
        decreases 11 - i,
    {
        e[i] = sfn[i];
        i = i + 1;
    }
    e[11] = attr;
    e[12] = case;
    let ghost head = e@;
    assert(head =~= Seq::new(
        32,
        |i: int|
            if i < 11 {
                sfn@[i]
            } else if i == 11 {
                attr
            } else if i == 12 {
                case
            } else {
                0u8
            },
    ));
    set_first_clus_in_entry(&mut e, clus);
    set_file_size_in_entry(&mut e, size);
    let ghost full = e@;
    set_timestamps(&mut e);
    assert(e@ =~= full);
    e
}

/// `entries` are those of a new file: its long name, where it needs one, and the entry
/// with its short name.
pub open spec fn is_group(
    entries: Seq<Seq<u8>>,
    name: Seq<char>,
    sfn: Seq<u8>,
    attr: u8,
    case: u8,
    clus: int,
    size: int,
) -> bool {
    &&& entries.len() == group_len(name)
    &&& entries.last() == short_entry(sfn, attr, case, clus, size)
    &&& dirent::is_long_name(name, utf8::encode_utf8(name)) ==> dirent::is_vfat_name(
        entries.drop_last(),
        text::utf16(name),
        dirent::checksum_of(sfn, 11) as u8,
    )
}

/// What the entry with the short name keeps of the case of the name: nothing where there
/// is a long name besides.
pub open spec fn kept_case(name: Seq<char>) -> u8 {
    if dirent::is_long_name(name, utf8::encode_utf8(name)) {
        0
    } else {
        dirent::case_flags(utf8::encode_utf8(name))
    }
}

/// What the entry with the short name keeps of the case of the name.
pub fn keep_case(name: &str) -> (r: u8)
    ensures
        r == kept_case(name@),
{
    if needs_vfat(name) {
        0
    } else {
        nt_case_flags(name)
    }
}

/// How many entries a new file takes.
pub open spec fn group_len(name: Seq<char>) -> int {
    if dirent::is_long_name(name, utf8::encode_utf8(name)) {
        dirent::lfn_slots(name) + 1
    } else {
        1
    }
}

/// The entries of a new file.
pub fn build_group(name: &str, sfn: &[u8; 11], attr: u8, case: u8, clus: u32, size: u32) -> (r: Vec<
    [u8; 32],
>)
    ensures
        is_group(
            dirent::entry_views(r@),
            name@,
            sfn@,
            attr,
            case,
            clus as int,
            size as int,
        ),
        r@.len() == group_len(name@),
{
    let mut entries: Vec<[u8; 32]> = Vec::new();
    if needs_vfat(name) {
        entries = encode_vfat_entries(name, vfat_checksum(sfn));
    }
    let ghost lead = dirent::entry_views(entries@);
    entries.push(make_entry(sfn, attr, case, clus, size));
    assert(dirent::entry_views(entries@).drop_last() =~= lead);
    entries
}

} // verus!
