//! Files and directories.

use crate::blockdriver::traits::BlockDevice;
use crate::bytes::sub_vec;
use crate::ntfs::attr::{
    iter_attrs, parse_attr_list, parse_file_name, Attr, AttrListEntry, AttrListView, AttrView,
    ATTR_ATTRIBUTE_LIST, ATTR_DATA, ATTR_FILE_NAME, FILE_NAME_INDEX_PRESENT, FLAGS_UNSUPPORTED,
    MFT_REF_LIMIT,
};
use crate::ntfs::boot::BootSector;
use crate::ntfs::detail;
use crate::ntfs::index::{read_dir_entries, IndexEntry, IndexEntryView};
use crate::ntfs::runs::{read_file_at, Run, RunList};
use crate::ntfs::volume::{fill_zeros, read_attr_value, read_runs, Failure, NtfsSuperBlock};
use crate::vfs::{DirEntry, FileType, Stat, VfsError};
use vstd::prelude::*;

verus! {

/// Bytes of an attribute list that are read, at most.
pub const MAX_LIST_BYTES: u64 = 0x10_0000;

/// Where the bytes of a file are.
pub enum DataSource {
    /// In its record.
    Resident(Vec<u8>),
    /// In runs, of which so many bytes have been written; what comes behind them
    /// reads as zeros.
    Runs(RunList, u64),
    /// Nowhere.
    Nothing,
}

/// A file or a directory. What tells it from others is its record number.
pub struct NtfsInode {
    pub mft_no: u64,
    pub file_type: FileType,
    pub size: u64,
    pub mtime: u64,
    pub data: DataSource,
    /// Its data is compressed or encrypted, so that it cannot be read.
    pub unsupported: bool,
}

/// What has been gathered of a file's data.
#[verifier::ext_equal]
pub struct Parts {
    pub resident: Option<Seq<u8>>,
    pub runs: Seq<Run>,
    pub size: u64,
    pub init: u64,
    pub unsupported: bool,
}

pub open spec fn no_parts() -> Parts {
    Parts { resident: None, runs: Seq::empty(), size: 0, init: 0, unsupported: false }
}

pub open spec fn larger(a: u64, b: u64) -> u64 {
    if a > b {
        a
    } else {
        b
    }
}

/// The parts with the data attribute `a` of the record `rec`.
pub open spec fn with_data(rec: Seq<u8>, a: AttrView, p: Parts) -> Option<Parts> {
    if a.flags & FLAGS_UNSUPPORTED != 0 {
        Some(Parts { unsupported: true, ..p })
    } else if a.resident {
        Some(
            Parts { resident: Some(a.value), size: larger(a.value.len() as u64, p.size), ..p },
        )
    } else {
        match crate::ntfs::volume::attr_runs(rec, a) {
            None => None,
            Some(runs) => Some(
                Parts {
                    runs: p.runs + runs,
                    size: larger(a.real_size, p.size),
                    init: larger(a.init_size, p.init),
                    ..p
                },
            ),
        }
    }
}

/// The attribute is the unnamed data of a file.
pub open spec fn is_data(a: AttrView) -> bool {
    a.attr_type == ATTR_DATA && a.name is None
}

/// The parts with the data attributes from number `i` on.
pub open spec fn with_all_data(rec: Seq<u8>, attrs: Seq<AttrView>, i: int, p: Parts) -> Option<Parts>
    decreases attrs.len() - i,
{
    if i >= attrs.len() {
        Some(p)
    } else if !is_data(attrs[i]) {
        with_all_data(rec, attrs, i + 1, p)
    } else {
        match with_data(rec, attrs[i], p) {
            None => None,
            Some(q) => with_all_data(rec, attrs, i + 1, q),
        }
    }
}

/// The first attribute of type `t`, from number `i` on.
pub open spec fn first_of(attrs: Seq<AttrView>, t: u32, i: int) -> Option<AttrView>
    decreases attrs.len() - i,
{
    if i >= attrs.len() {
        None
    } else if attrs[i].attr_type == t {
        Some(attrs[i])
    } else {
        first_of(attrs, t, i + 1)
    }
}

/// The first unnamed data attribute that starts at cluster `vcn`, from number `i`
/// on.
pub open spec fn extent_at(attrs: Seq<AttrView>, vcn: u64, i: int) -> Option<AttrView>
    decreases attrs.len() - i,
{
    if i >= attrs.len() {
        None
    } else if is_data(attrs[i]) && attrs[i].lowest_vcn == vcn {
        Some(attrs[i])
    } else {
        extent_at(attrs, vcn, i + 1)
    }
}

/// The record that a list entry of record `no` leads to.
pub open spec fn record_for(
    disk: spec_fn(int) -> u8,
    boot: BootSector,
    mft: Seq<Run>,
    no: u64,
    rec: Seq<u8>,
    e: AttrListView,
) -> Option<Seq<u8>> {
    if crate::ntfs::attr::record_no(e.mft_ref as int) == no {
        Some(rec)
    } else {
        crate::ntfs::volume::record_of(
            disk,
            boot,
            mft,
            crate::ntfs::attr::record_no(e.mft_ref as int),
        )
    }
}

/// The parts with what one list entry leads to.
pub open spec fn with_entry(
    disk: spec_fn(int) -> u8,
    boot: BootSector,
    mft: Seq<Run>,
    no: u64,
    rec: Seq<u8>,
    e: AttrListView,
    p: Parts,
) -> Option<Parts> {
    match record_for(disk, boot, mft, no, rec, e) {
        None => None,
        Some(other) => match crate::ntfs::attr::attrs_of(other) {
            None => None,
            Some(attrs) => match extent_at(attrs, e.lowest_vcn, 0) {
                None => Some(p),
                Some(a) => with_data(other, a, p),
            },
        },
    }
}

/// The parts with what the list entries from number `i` on lead to.
pub open spec fn with_list(
    disk: spec_fn(int) -> u8,
    boot: BootSector,
    mft: Seq<Run>,
    no: u64,
    rec: Seq<u8>,
    list: Seq<AttrListView>,
    i: int,
    p: Parts,
) -> Option<Parts>
    decreases list.len() - i,
{
    if i >= list.len() {
        Some(p)
    } else if list[i].attr_type != ATTR_DATA || list[i].name is Some {
        with_list(disk, boot, mft, no, rec, list, i + 1, p)
    } else {
        match with_entry(disk, boot, mft, no, rec, list[i], p) {
            None => None,
            Some(q) => with_list(disk, boot, mft, no, rec, list, i + 1, q),
        }
    }
}

/// All that is gathered of the data of the file with record `rec` and number `no`:
/// by its attribute list, if it has one.
pub open spec fn parts_of(
    disk: spec_fn(int) -> u8,
    boot: BootSector,
    mft: Seq<Run>,
    no: u64,
    rec: Seq<u8>,
    attrs: Seq<AttrView>,
) -> Option<Parts> {
    match first_of(attrs, ATTR_ATTRIBUTE_LIST, 0) {
        None => with_all_data(rec, attrs, 0, no_parts()),
        Some(a) => match crate::ntfs::volume::attr_value(disk, boot, rec, a, MAX_LIST_BYTES) {
            None => None,
            Some(bytes) => match crate::ntfs::attr::list_from(bytes, 0, 0) {
                None => None,
                Some(list) => with_list(disk, boot, mft, no, rec, list, 0, no_parts()),
            },
        },
    }
}

/// What fails on the way to what one list entry leads to: the read of its record, or what
/// is done with it, of which nothing is noted.
pub open spec fn entry_failure(
    disk: spec_fn(int) -> u8,
    boot: BootSector,
    mft: Seq<Run>,
    no: u64,
    rec: Seq<u8>,
    e: AttrListView,
    p: Parts,
) -> Option<Failure> {
    let other = crate::ntfs::attr::record_no(e.mft_ref as int);
    if other != no && crate::ntfs::volume::record_failure(disk, boot, mft, other) is Some {
        crate::ntfs::volume::record_failure(disk, boot, mft, other)
    } else if with_entry(disk, boot, mft, no, rec, e, p) is None {
        Some((VfsError::IOError, None))
    } else {
        None
    }
}

/// What fails first on the way to what the list entries from number `i` on lead to.
pub open spec fn list_failure(
    disk: spec_fn(int) -> u8,
    boot: BootSector,
    mft: Seq<Run>,
    no: u64,
    rec: Seq<u8>,
    list: Seq<AttrListView>,
    i: int,
    p: Parts,
) -> Option<Failure>
    decreases list.len() - i,
{
    if i >= list.len() {
        None
    } else if list[i].attr_type != ATTR_DATA || list[i].name is Some {
        list_failure(disk, boot, mft, no, rec, list, i + 1, p)
    } else if entry_failure(disk, boot, mft, no, rec, list[i], p) is Some {
        entry_failure(disk, boot, mft, no, rec, list[i], p)
    } else {
        list_failure(
            disk,
            boot,
            mft,
            no,
            rec,
            list,
            i + 1,
            with_entry(disk, boot, mft, no, rec, list[i], p)->0,
        )
    }
}

/// What fails while the data of the file with record `rec` and number `no` is gathered.
pub open spec fn parts_failure(
    disk: spec_fn(int) -> u8,
    boot: BootSector,
    mft: Seq<Run>,
    no: u64,
    rec: Seq<u8>,
    attrs: Seq<AttrView>,
) -> Option<Failure> {
    match first_of(attrs, ATTR_ATTRIBUTE_LIST, 0) {
        None => if with_all_data(rec, attrs, 0, no_parts()) is None {
            Some((VfsError::IOError, None))
        } else {
            None
        },
        Some(a) => match crate::ntfs::volume::attr_value(disk, boot, rec, a, MAX_LIST_BYTES) {
            None => Some((VfsError::IOError, None)),
            Some(bytes) => match crate::ntfs::attr::list_from(bytes, 0, 0) {
                None => Some((VfsError::IOError, None)),
                Some(list) => list_failure(disk, boot, mft, no, rec, list, 0, no_parts()),
            },
        },
    }
}

/// What a load of the file or directory with record number `no` fails with, and what is
/// noted of it: it is not found where its number, or that of a record that its attribute
/// list leads to, is out of range. Nothing where the volume holds it.
pub open spec fn load_failure(
    disk: spec_fn(int) -> u8,
    boot: BootSector,
    mft: Seq<Run>,
    no: u64,
) -> Option<Failure> {
    if crate::ntfs::volume::record_failure(disk, boot, mft, no as int) is Some {
        crate::ntfs::volume::record_failure(disk, boot, mft, no as int)
    } else {
        let rec = crate::ntfs::volume::record_of(disk, boot, mft, no as int)->0;
        match crate::ntfs::attr::attrs_of(rec) {
            None => Some((VfsError::IOError, None)),
            Some(attrs) => parts_failure(disk, boot, mft, no, rec, attrs),
        }
    }
}

/// A failure is an I/O error, or says that something was not found.
pub open spec fn is_ordinary(f: Option<Failure>) -> bool {
    f matches Some((e, _)) ==> e == VfsError::IOError || e == VfsError::NotFound
}

proof fn lemma_list_failure(
    disk: spec_fn(int) -> u8,
    boot: BootSector,
    mft: Seq<Run>,
    no: u64,
    rec: Seq<u8>,
    list: Seq<AttrListView>,
    i: int,
    p: Parts,
)
    requires
        boot.inv(),
    ensures
        is_ordinary(list_failure(disk, boot, mft, no, rec, list, i, p)),
    decreases list.len() - i,
{
    if i < list.len() {
        crate::ntfs::volume::lemma_record_failure(
            disk,
            boot,
            mft,
            crate::ntfs::attr::record_no(list[i].mft_ref as int),
        );
        lemma_list_failure(disk, boot, mft, no, rec, list, i + 1, p);
        lemma_list_failure(
            disk,
            boot,
            mft,
            no,
            rec,
            list,
            i + 1,
            with_entry(disk, boot, mft, no, rec, list[i], p)->0,
        );
    }
}

/// A load fails with an I/O error, or because something was not found.
pub proof fn lemma_load_failure(disk: spec_fn(int) -> u8, boot: BootSector, mft: Seq<Run>, no: u64)
    requires
        boot.inv(),
    ensures
        is_ordinary(load_failure(disk, boot, mft, no)),
{
    crate::ntfs::volume::lemma_record_failure(disk, boot, mft, no as int);
    if let Some(rec) = crate::ntfs::volume::record_of(disk, boot, mft, no as int) {
        if let Some(attrs) = crate::ntfs::attr::attrs_of(rec) {
            if let Some(a) = first_of(attrs, ATTR_ATTRIBUTE_LIST, 0) {
                if let Some(bytes) = crate::ntfs::volume::attr_value(
                    disk,
                    boot,
                    rec,
                    a,
                    MAX_LIST_BYTES,
                ) {
                    if let Some(list) = crate::ntfs::attr::list_from(bytes, 0, 0) {
                        lemma_list_failure(disk, boot, mft, no, rec, list, 0, no_parts());
                    }
                }
            }
        }
    }
}

/// The type and the time of a file, by its first name.
pub open spec fn type_and_time(attrs: Seq<AttrView>) -> (FileType, u64) {
    match first_of(attrs, ATTR_FILE_NAME, 0) {
        None => (FileType::Regular, 0u64),
        Some(a) => match crate::ntfs::attr::file_name_of(a.value) {
            None => (FileType::Regular, 0u64),
            Some(f) => (
                if f.flags & FILE_NAME_INDEX_PRESENT != 0 {
                    FileType::Directory
                } else {
                    FileType::Regular
                },
                f.mtime,
            ),
        },
    }
}

/// The runs that start at cluster `vcn`, in their order.
pub open spec fn at_vcn(runs: Seq<Run>, vcn: u64) -> Seq<Run> {
    runs.filter(|r: Run| r.vcn == vcn)
}

/// `after` is `before`, sorted by first clusters; of two runs that start at the
/// same one, the one that came first stays first.
pub open spec fn is_sorted_form(before: Seq<Run>, after: Seq<Run>) -> bool {
    &&& crate::ntfs::runs::sorted(after)
    &&& after.len() == before.len()
    &&& forall|vcn: u64| #[trigger] at_vcn(after, vcn) == at_vcn(before, vcn)
}

/// `slice::sort_by_key`: the same runs, in the order of their first clusters; the
/// order of runs with the same first cluster stays.
#[verifier::external_body]
fn sort_runs(runs: &mut Vec<Run>)
    ensures
        is_sorted_form(old(runs)@, final(runs)@),
{
    runs.sort_by_key(|r| r.vcn);
}

impl DataSource {
    pub open spec fn inv(self) -> bool {
        match self {
            DataSource::Runs(l, _) => l.inv(),
            _ => true,
        }
    }

    /// The source is what the parts come to. Bytes in the record take precedence.
    pub open spec fn is_from(self, p: Parts) -> bool {
        match p.resident {
            Some(v) => self is Resident && self->Resident_0@ == v,
            None => if p.runs.len() > 0 {
                self is Runs && is_sorted_form(p.runs, self->Runs_0.runs@) && self->Runs_1 == p.init
            } else {
                self is Nothing
            },
        }
    }
}

impl NtfsInode {
    pub open spec fn inv(self) -> bool {
        self.data.inv()
    }

    /// From `before`, the listing of the directory failed with `e`: the device failed; the
    /// directory has no record, for which `record_failure` stands; or its index cannot be
    /// read.
    pub open spec fn listing_failed<D: BlockDevice>(
        self,
        after: NtfsSuperBlock<D>,
        before: NtfsSuperBlock<D>,
        e: VfsError,
    ) -> bool {
        let cause = crate::ntfs::volume::record_failure(
            before.device.disk(),
            before.boot,
            before.mft_runs.runs@,
            self.mft_no as int,
        );
        if after.faults() > before.faults() || cause is Some {
            after.failed_with(before, e, cause)
        } else {
            &&& e == VfsError::IOError
            &&& entries_of(
                before.device.disk(),
                before.boot,
                before.mft_runs.runs@,
                self.mft_no as int,
            ) is None
            &&& crate::ntfs::index::listing_noted(after, before)
        }
    }

    /// From `before`, the lookup of `name` failed with `e`: the directory could not be
    /// listed; it has nothing under the name; or what it has cannot be loaded.
    pub open spec fn lookup_failed<D: BlockDevice>(
        self,
        after: NtfsSuperBlock<D>,
        before: NtfsSuperBlock<D>,
        name: Seq<char>,
        e: VfsError,
    ) -> bool {
        match entries_of(
            before.device.disk(),
            before.boot,
            before.mft_runs.runs@,
            self.mft_no as int,
        ) {
            None => self.listing_failed(after, before, e),
            Some(entries) => after.failed_with(
                before,
                e,
                match entry_named(entries, name, 0) {
                    None => Some((VfsError::NotFound, None)),
                    Some(entry) => load_failure(
                        before.device.disk(),
                        before.boot,
                        before.mft_runs.runs@,
                        entry.mft_ref,
                    ),
                },
            ),
        }
    }

    /// The inode says of record `no` what the volume does.
    pub open spec fn describes(
        self,
        disk: spec_fn(int) -> u8,
        boot: BootSector,
        mft: Seq<Run>,
        no: u64,
    ) -> bool {
        &&& self.mft_no == no
        &&& crate::ntfs::volume::record_of(disk, boot, mft, no as int) matches Some(rec)
        &&& crate::ntfs::attr::attrs_of(rec) matches Some(attrs)
        &&& parts_of(disk, boot, mft, no, rec, attrs) matches Some(p)
        &&& (self.file_type, self.mtime) == type_and_time(attrs)
        &&& self.size == p.size
        &&& self.unsupported == p.unsupported
        &&& self.data.is_from(p)
    }
}

/// What has been gathered, in the making.
struct Gathered {
    resident: Option<Vec<u8>>,
    runs: Vec<Run>,
    size: u64,
    init: u64,
    unsupported: bool,
}

impl View for Gathered {
    type V = Parts;

    closed spec fn view(&self) -> Parts {
        Parts {
            resident: match self.resident {
                Some(v) => Some(v@),
                None => None,
            },
            runs: self.runs@,
            size: self.size,
            init: self.init,
            unsupported: self.unsupported,
        }
    }
}

impl Gathered {
    /// Adds a data attribute.
    fn add_data_attr(&mut self, a: &Attr, record: &Vec<u8>) -> (r: Result<(), VfsError>)
        ensures
            match with_data(record@, a@, old(self)@) {
                Some(p) => r is Ok && final(self)@ == p,
                None => r == Err::<(), VfsError>(VfsError::IOError),
            },
    {
        if a.flags & FLAGS_UNSUPPORTED != 0 {
            self.unsupported = true;
            assert(self@ =~= with_data(record@, a@, old(self)@)->0);
            return Ok(());
        }
        if a.resident {
            let v: Vec<u8> = sub_vec(&a.value, 0, a.value.len());
            assert(v@ =~= a.value@);
            if v.len() as u64 > self.size {
                self.size = v.len() as u64;
            }
            self.resident = Some(v);
            assert(self@ =~= with_data(record@, a@, old(self)@)->0);
            return Ok(());
        }
        let mut list: RunList = match read_runs(record, a) {
            Ok(l) => l,
            Err(e) => return Err(e),
        };
        self.runs.append(&mut list.runs);
        if a.real_size > self.size {
            self.size = a.real_size;
        }
        if a.init_size > self.init {
            self.init = a.init_size;
        }
        assert(self@ =~= with_data(record@, a@, old(self)@)->0);
        Ok(())
    }

    /// Adds the data attributes of one record.
    fn add_all(&mut self, attrs: &Vec<Attr>, record: &Vec<u8>) -> (r: Result<(), VfsError>)
        ensures
            match with_all_data(
                record@,
                crate::ntfs::attr::attr_views(attrs@),
                0,
                old(self)@,
            ) {
                Some(p) => r is Ok && final(self)@ == p,
                None => r == Err::<(), VfsError>(VfsError::IOError),
            },
    {
        let ghost views = crate::ntfs::attr::attr_views(attrs@);
        let ghost whole = with_all_data(record@, views, 0, self@);
        let mut i: usize = 0;
        while i < attrs.len()
            invariant
                i <= attrs@.len(),
                views == crate::ntfs::attr::attr_views(attrs@),
                whole == with_all_data(record@, views, i as int, self@),
                whole == with_all_data(record@, views, 0, old(self)@),
            decreases attrs@.len() - i,
        {
            assert(views[i as int] == attrs@[i as int]@);
            if attrs[i].attr_type == ATTR_DATA && attrs[i].name.is_none() {
                if let Err(e) = self.add_data_attr(&attrs[i], record) {
                    return Err(e);
                }
            }
            i = i + 1;
        }
        Ok(())
    }
}

fn find_type(attrs: &Vec<Attr>, t: u32) -> (r: Option<usize>)
    ensures
        match first_of(crate::ntfs::attr::attr_views(attrs@), t, 0) {
            Some(a) => r is Some && r->0 < attrs@.len() && attrs@[r->0 as int]@ == a,
            None => r is None,
        },
{
    let ghost views = crate::ntfs::attr::attr_views(attrs@);
    let mut i: usize = 0;
    while i < attrs.len()
        invariant
            i <= attrs@.len(),
            views == crate::ntfs::attr::attr_views(attrs@),
            first_of(views, t, 0) == first_of(views, t, i as int),
        decreases attrs@.len() - i,
    {
        assert(views[i as int] == attrs@[i as int]@);
        if attrs[i].attr_type == t {
            return Some(i);
        }
        i = i + 1;
    }
    None
}

fn find_extent(attrs: &Vec<Attr>, vcn: u64) -> (r: Option<usize>)
    ensures
        match extent_at(crate::ntfs::attr::attr_views(attrs@), vcn, 0) {
            Some(a) => r is Some && r->0 < attrs@.len() && attrs@[r->0 as int]@ == a,
            None => r is None,
        },
{
    let ghost views = crate::ntfs::attr::attr_views(attrs@);
    let mut i: usize = 0;
    while i < attrs.len()
        invariant
            i <= attrs@.len(),
            views == crate::ntfs::attr::attr_views(attrs@),
            extent_at(views, vcn, 0) == extent_at(views, vcn, i as int),
        decreases attrs@.len() - i,
    {
        assert(views[i as int] == attrs@[i as int]@);
        if attrs[i].attr_type == ATTR_DATA && attrs[i].name.is_none() && attrs[i].lowest_vcn
            == vcn {
            return Some(i);
        }
        i = i + 1;
    }
    None
}

fn find_type_and_time(attrs: &Vec<Attr>) -> (r: (FileType, u64))
    ensures
        r == type_and_time(crate::ntfs::attr::attr_views(attrs@)),
{
    match find_type(attrs, ATTR_FILE_NAME) {
        None => (FileType::Regular, 0),
        Some(i) => match parse_file_name(&attrs[i].value) {
            Err(_) => (FileType::Regular, 0),
            Ok(f) => (
                if f.flags & FILE_NAME_INDEX_PRESENT != 0 {
                    FileType::Directory
                } else {
                    FileType::Regular
                },
                f.mtime,
            ),
        },
    }
}

fn copy_of(v: &Vec<u8>) -> (r: Vec<u8>)
    ensures
        r@ == v@,
{
    let c: Vec<u8> = sub_vec(v, 0, v.len());
    assert(c@ =~= v@);
    c
}

/// Adds what one list entry leads to.
fn add_entry<D: BlockDevice>(
    sb: &mut NtfsSuperBlock<D>,
    mft_no: u64,
    record: &Vec<u8>,
    e: &AttrListEntry,
    g: &mut Gathered,
) -> (r: Result<(), VfsError>)
    requires
        old(sb).inv(),
    ensures
        final(sb).inv(),
        final(sb).same(*old(sb)),
        match r {
            Ok(_) => with_entry(
                old(sb).device.disk(),
                old(sb).boot,
                old(sb).mft_runs.runs@,
                mft_no,
                record@,
                e@,
                old(g)@,
            ) == Some(final(g)@) && entry_failure(
                old(sb).device.disk(),
                old(sb).boot,
                old(sb).mft_runs.runs@,
                mft_no,
                record@,
                e@,
                old(g)@,
            ) is None && final(sb).unfailing(*old(sb)),
            Err(x) => final(sb).failed_with(
                *old(sb),
                x,
                entry_failure(
                    old(sb).device.disk(),
                    old(sb).boot,
                    old(sb).mft_runs.runs@,
                    mft_no,
                    record@,
                    e@,
                    old(g)@,
                ),
            ),
        },
{
    let rec_no: u64 = e.mft_ref % MFT_REF_LIMIT;
    proof {
        crate::ntfs::volume::lemma_record_failure(
            sb.device.disk(),
            sb.boot,
            sb.mft_runs.runs@,
            rec_no as int,
        );
    }
    let rec: Vec<u8> = if rec_no == mft_no {
        copy_of(record)
    } else {
        match sb.read_mft_record(rec_no) {
            Ok(v) => v,
            Err(x) => return Err(x),
        }
    };
    let attrs: Vec<Attr> = match iter_attrs(&rec) {
        Ok(a) => a,
        Err(x) => return Err(x),
    };
    match find_extent(&attrs, e.lowest_vcn) {
        None => Ok(()),
        Some(i) => g.add_data_attr(&attrs[i], &rec),
    }
}

/// Adds what the entries of an attribute list lead to.
fn add_list<D: BlockDevice>(
    sb: &mut NtfsSuperBlock<D>,
    mft_no: u64,
    record: &Vec<u8>,
    list: &Vec<AttrListEntry>,
    g: &mut Gathered,
) -> (r: Result<(), VfsError>)
    requires
        old(sb).inv(),
    ensures
        final(sb).inv(),
        final(sb).same(*old(sb)),
        ({
            let views = crate::ntfs::attr::list_views(list@);
            let disk = old(sb).device.disk();
            let mft = old(sb).mft_runs.runs@;
            match r {
                Ok(_) => with_list(disk, old(sb).boot, mft, mft_no, record@, views, 0, old(g)@)
                    == Some(final(g)@) && list_failure(
                    disk,
                    old(sb).boot,
                    mft,
                    mft_no,
                    record@,
                    views,
                    0,
                    old(g)@,
                ) is None && final(sb).unfailing(*old(sb)),
                Err(x) => final(sb).failed_with(
                    *old(sb),
                    x,
                    list_failure(disk, old(sb).boot, mft, mft_no, record@, views, 0, old(g)@),
                ),
            }
        }),
{
    let ghost views = crate::ntfs::attr::list_views(list@);
    let ghost disk = sb.device.disk();
    let ghost boot = sb.boot;
    let ghost mft = sb.mft_runs.runs@;
    let ghost whole = with_list(disk, boot, mft, mft_no, record@, views, 0, g@);
    let ghost cause = list_failure(disk, boot, mft, mft_no, record@, views, 0, g@);
    let mut i: usize = 0;
    while i < list.len()
        invariant
            sb.inv(),
            sb.same(*old(sb)),
            sb.unfailing(*old(sb)),
            disk == old(sb).device.disk(),
            boot == old(sb).boot,
            mft == old(sb).mft_runs.runs@,
            i <= list@.len(),
            views == crate::ntfs::attr::list_views(list@),
            whole == with_list(disk, boot, mft, mft_no, record@, views, i as int, g@),
            whole == with_list(disk, boot, mft, mft_no, record@, views, 0, old(g)@),
            cause == list_failure(disk, boot, mft, mft_no, record@, views, i as int, g@),
            cause == list_failure(disk, boot, mft, mft_no, record@, views, 0, old(g)@),
        decreases list@.len() - i,
    {
        assert(views[i as int] == list@[i as int]@);
        if list[i].attr_type == ATTR_DATA && list[i].name.is_none() {
            if let Err(x) = add_entry(sb, mft_no, record, &list[i], g) {
                return Err(x);
            }
        }
        i = i + 1;
    }
    Ok(())
}

/// Gathers the data of a file.
fn gather<D: BlockDevice>(
    sb: &mut NtfsSuperBlock<D>,
    mft_no: u64,
    record: &Vec<u8>,
    attrs: &Vec<Attr>,
) -> (r: Result<Gathered, VfsError>)
    requires
        old(sb).inv(),
    ensures
        final(sb).inv(),
        final(sb).same(*old(sb)),
        ({
            let views = crate::ntfs::attr::attr_views(attrs@);
            let disk = old(sb).device.disk();
            let mft = old(sb).mft_runs.runs@;
            match r {
                Ok(g) => parts_of(disk, old(sb).boot, mft, mft_no, record@, views) == Some(g@)
                    && parts_failure(disk, old(sb).boot, mft, mft_no, record@, views) is None
                    && final(sb).unfailing(*old(sb)),
                Err(x) => final(sb).failed_with(
                    *old(sb),
                    x,
                    parts_failure(disk, old(sb).boot, mft, mft_no, record@, views),
                ),
            }
        }),
{
    let mut g = Gathered {
        resident: None,
        runs: Vec::new(),
        size: 0,
        init: 0,
        unsupported: false,
    };
    assert(g@ =~= no_parts());
    match find_type(attrs, ATTR_ATTRIBUTE_LIST) {
        None => {
            if let Err(e) = g.add_all(attrs, record) {
                return Err(e);
            }
        },
        Some(i) => {
            let bytes: Vec<u8> = match read_attr_value(
                &mut sb.device,
                &sb.boot,
                record,
                &attrs[i],
                MAX_LIST_BYTES,
                &mut sb.why,
            ) {
                Ok(v) => v,
                Err(e) => return Err(e),
            };
            let list: Vec<AttrListEntry> = match parse_attr_list(&bytes) {
                Ok(l) => l,
                Err(e) => return Err(e),
            };
            if let Err(e) = add_list(sb, mft_no, record, &list, &mut g) {
                return Err(e);
            }
        },
    }
    Ok(g)
}

fn settle(g: Gathered) -> (r: DataSource)
    ensures
        r.inv(),
        r.is_from(g@),
{
    match g.resident {
        Some(v) => DataSource::Resident(v),
        None => {
            if g.runs.len() > 0 {
                let mut runs: Vec<Run> = g.runs;
                sort_runs(&mut runs);
                DataSource::Runs(RunList { runs }, g.init)
            } else {
                DataSource::Nothing
            }
        },
    }
}

impl NtfsInode {
    /// Loads the file or directory with record number `mft_no`. Why it fails is noted, as far
    /// as anything is to be noted of it.
    pub fn load<D: BlockDevice>(sb: &mut NtfsSuperBlock<D>, mft_no: u64) -> (r: Result<
        NtfsInode,
        VfsError,
    >)
        requires
            old(sb).inv(),
        ensures
            final(sb).inv(),
            final(sb).same(*old(sb)),
            match r {
                Ok(n) => n.inv() && n.describes(
                    old(sb).device.disk(),
                    old(sb).boot,
                    old(sb).mft_runs.runs@,
                    mft_no,
                ),
                Err(e) => final(sb).failed_with(
                    *old(sb),
                    e,
                    load_failure(
                        old(sb).device.disk(),
                        old(sb).boot,
                        old(sb).mft_runs.runs@,
                        mft_no,
                    ),
                ),
            },
            r is Ok ==> load_failure(
                old(sb).device.disk(),
                old(sb).boot,
                old(sb).mft_runs.runs@,
                mft_no,
            ) is None && final(sb).unfailing(*old(sb)),
            mft_no >= old(sb).boot.max_records ==> r == Err::<NtfsInode, VfsError>(
                VfsError::NotFound,
            ),
    {
        proof {
            crate::ntfs::volume::lemma_record_failure(
                sb.device.disk(),
                sb.boot,
                sb.mft_runs.runs@,
                mft_no as int,
            );
        }
        let record: Vec<u8> = match sb.read_mft_record(mft_no) {
            Ok(v) => v,
            Err(e) => return Err(e),
        };
        let attrs: Vec<Attr> = match iter_attrs(&record) {
            Ok(a) => a,
            Err(e) => return Err(e),
        };
        let (file_type, mtime) = find_type_and_time(&attrs);
        let g: Gathered = match gather(sb, mft_no, &record, &attrs) {
            Ok(g) => g,
            Err(e) => return Err(e),
        };
        let size: u64 = g.size;
        let unsupported: bool = g.unsupported;
        let data: DataSource = settle(g);
        Ok(NtfsInode { mft_no, file_type, size, mtime, data, unsupported })
    }
}

pub open spec fn smaller(a: int, b: int) -> int {
    if a < b {
        a
    } else {
        b
    }
}

/// The bytes of `v` from `offset` on, `len` at most.
pub open spec fn part_of(v: Seq<u8>, offset: int, len: int) -> Seq<u8> {
    if offset >= v.len() {
        Seq::empty()
    } else {
        v.subrange(offset, smaller(offset + len, v.len() as int))
    }
}

/// The bytes of a file in runs from `offset` on, `want` of them: those that have
/// been written come from the runs, all others are zeros.
pub open spec fn run_bytes(
    disk: spec_fn(int) -> u8,
    boot: BootSector,
    runs: Seq<Run>,
    init: int,
    offset: int,
    want: int,
) -> Option<Seq<u8>> {
    if offset >= init {
        Some(crate::ntfs::volume::zero_filled(Seq::empty(), want))
    } else {
        match crate::ntfs::runs::content(
            disk,
            boot,
            runs,
            offset,
            smaller(want, init - offset),
        ) {
            Some(c) => Some(crate::ntfs::volume::zero_filled(c, want)),
            None => None,
        }
    }
}

/// The entries of a directory with record number `no`.
pub open spec fn entries_of(disk: spec_fn(int) -> u8, boot: BootSector, mft: Seq<Run>, no: int) -> Option<
    Seq<IndexEntryView>,
> {
    match crate::ntfs::volume::record_of(disk, boot, mft, no) {
        None => None,
        Some(rec) => crate::ntfs::index::listing(disk, boot, rec),
    }
}

/// The first entry that is named `name`, whatever the case of its letters, from
/// number `i` on.
pub open spec fn entry_named(entries: Seq<IndexEntryView>, name: Seq<char>, i: int) -> Option<
    IndexEntryView,
>
    decreases entries.len() - i,
{
    if i >= entries.len() {
        None
    } else if crate::text::lower(entries[i].name) == crate::text::lower(name) {
        Some(entries[i])
    } else {
        entry_named(entries, name, i + 1)
    }
}

impl NtfsInode {
    /// Reads `len` bytes from `offset` on, or as many as the file has.
    pub fn read_at<D: BlockDevice>(
        &self,
        sb: &mut NtfsSuperBlock<D>,
        offset: u64,
        len: usize,
    ) -> (r: Result<Vec<u8>, VfsError>)
        requires
            old(sb).inv(),
            self.inv(),
        ensures
            final(sb).inv(),
            final(sb).same(*old(sb)),
            self.unsupported ==> r == Err::<Vec<u8>, VfsError>(VfsError::IOError),
            !self.unsupported && self.file_type != FileType::Regular ==> r == Err::<
                Vec<u8>,
                VfsError,
            >(VfsError::IsADirectory),
            !self.unsupported && self.file_type == FileType::Regular ==> {
                if offset >= self.size || len == 0 {
                    r is Ok && r->Ok_0@.len() == 0
                } else {
                    match self.data {
                        DataSource::Nothing => r is Ok && r->Ok_0@.len() == 0,
                        DataSource::Resident(v) => r is Ok && r->Ok_0@ == part_of(
                            v@,
                            offset as int,
                            len as int,
                        ),
                        DataSource::Runs(l, init) => match r {
                            Ok(v) => run_bytes(
                                old(sb).device.disk(),
                                old(sb).boot,
                                l.runs@,
                                init as int,
                                offset as int,
                                smaller(len as int, self.size - offset),
                            ) == Some(v@) && final(sb).unfailing(*old(sb)),
                            Err(e) => e == VfsError::IOError && offset < init && (run_bytes(
                                old(sb).device.disk(),
                                old(sb).boot,
                                l.runs@,
                                init as int,
                                offset as int,
                                smaller(len as int, self.size - offset),
                            ) is Some ==> final(sb).faults() > old(sb).faults())
                                && final(sb).why.noted(
                                old(sb).why,
                                detail::fault_text(old(sb).device, final(sb).device),
                            ),
                        },
                    }
                }
            },
            self.data matches DataSource::Runs(l, init) ==> (offset >= init
                || crate::ntfs::runs::holes_only(
                old(sb).boot,
                l.runs@,
                offset as int,
                smaller(smaller(len as int, self.size - offset), init - offset),
            )) ==> *final(sb) == *old(sb),
            !(self.data is Runs) ==> *final(sb) == *old(sb),
    {
        if self.unsupported {
            return Err(VfsError::IOError);
        }
        if self.file_type != FileType::Regular {
            return Err(VfsError::IsADirectory);
        }
        if offset >= self.size || len == 0 {
            return Ok(Vec::new());
        }
        match &self.data {
            DataSource::Nothing => Ok(Vec::new()),
            DataSource::Resident(v) => {
                if offset >= v.len() as u64 {
                    return Ok(Vec::new());
                }
                let start: usize = offset as usize;
                let left: usize = v.len() - start;
                let n: usize = if len < left {
                    len
                } else {
                    left
                };
                Ok(sub_vec(v, start, start + n))
            },
            DataSource::Runs(l, init) => {
                let left: u64 = self.size - offset;
                let want: usize = if (len as u64) < left {
                    len
                } else {
                    left as usize
                };
                let mut buf: Vec<u8> = Vec::new();
                if offset < *init {
                    let written: u64 = *init - offset;
                    let n: usize = if (want as u64) < written {
                        want
                    } else {
                        written as usize
                    };
                    buf = match read_file_at(
                        &mut sb.device,
                        &sb.boot,
                        l,
                        offset,
                        n,
                        &mut sb.why,
                    ) {
                        Ok(v) => v,
                        Err(e) => return Err(e),
                    };
                }
                assert(offset >= *init ==> buf@ =~= Seq::<u8>::empty());
                fill_zeros(&mut buf, want);
                Ok(buf)
            },
        }
    }

    fn dir_entries<D: BlockDevice>(&self, sb: &mut NtfsSuperBlock<D>) -> (r: Result<
        Vec<IndexEntry>,
        VfsError,
    >)
        requires
            old(sb).inv(),
        ensures
            final(sb).inv(),
            final(sb).same(*old(sb)),
            match r {
                Ok(v) => entries_of(
                    old(sb).device.disk(),
                    old(sb).boot,
                    old(sb).mft_runs.runs@,
                    self.mft_no as int,
                ) == Some(crate::ntfs::index::entry_views(v@)) && final(sb).unfailing(*old(sb)),
                Err(e) => self.listing_failed(*final(sb), *old(sb), e),
            },
    {
        proof {
            crate::ntfs::volume::lemma_record_failure(
                sb.device.disk(),
                sb.boot,
                sb.mft_runs.runs@,
                self.mft_no as int,
            );
        }
        let record: Vec<u8> = match sb.read_mft_record(self.mft_no) {
            Ok(v) => v,
            Err(e) => return Err(e),
        };
        let ghost mid = *sb;
        match read_dir_entries(sb, &record) {
            Ok(v) => Ok(v),
            Err(e) => {
                proof {
                    crate::ntfs::index::lemma_listing_noted(*sb, mid, *old(sb));
                }
                Err(e)
            },
        }
    }

    /// Looks a name up in a directory.
    pub fn lookup<D: BlockDevice>(&self, sb: &mut NtfsSuperBlock<D>, name: &str) -> (r: Result<
        NtfsInode,
        VfsError,
    >)
        requires
            old(sb).inv(),
        ensures
            final(sb).inv(),
            final(sb).same(*old(sb)),
            match r {
                Ok(n) => n.inv() && ({
                    let entries = entries_of(
                        old(sb).device.disk(),
                        old(sb).boot,
                        old(sb).mft_runs.runs@,
                        self.mft_no as int,
                    );
                    entries is Some && match entry_named(entries->0, name@, 0) {
                        Some(e) => n.describes(
                            old(sb).device.disk(),
                            old(sb).boot,
                            old(sb).mft_runs.runs@,
                            e.mft_ref,
                        ),
                        None => false,
                    }
                }),
                Err(e) => self.lookup_failed(*final(sb), *old(sb), name@, e),
            },
            r is Ok ==> final(sb).unfailing(*old(sb)),
    {
        let ghost sb0 = *sb;
        proof {
            crate::ntfs::volume::lemma_record_failure(
                sb0.device.disk(),
                sb0.boot,
                sb0.mft_runs.runs@,
                self.mft_no as int,
            );
        }
        let entries: Vec<IndexEntry> = match self.dir_entries(sb) {
            Ok(v) => v,
            Err(e) => return Err(e),
        };
        let ghost views = crate::ntfs::index::entry_views(entries@);
        let mut i: usize = 0;
        while i < entries.len()
            invariant
                sb.inv(),
                sb.same(sb0),
                sb.unfailing(sb0),
                sb0 == *old(sb),
                i <= entries@.len(),
                views == crate::ntfs::index::entry_views(entries@),
                entries_of(
                    sb0.device.disk(),
                    sb0.boot,
                    sb0.mft_runs.runs@,
                    self.mft_no as int,
                ) == Some(views),
                entry_named(views, name@, 0) == entry_named(views, name@, i as int),
            decreases entries@.len() - i,
        {
            assert(views[i as int] == entries@[i as int]@);
            if crate::text::same_ignoring_case(entries[i].name.as_str(), name) {
                return NtfsInode::load(sb, entries[i].mft_ref);
            }
            i = i + 1;
        }
        Err(VfsError::NotFound)
    }

    /// The entries of a directory.
    pub fn readdir<D: BlockDevice>(&self, sb: &mut NtfsSuperBlock<D>) -> (r: Result<
        Vec<DirEntry>,
        VfsError,
    >)
        requires
            old(sb).inv(),
        ensures
            final(sb).inv(),
            final(sb).same(*old(sb)),
            match r {
                Ok(v) => ({
                    let entries = entries_of(
                        old(sb).device.disk(),
                        old(sb).boot,
                        old(sb).mft_runs.runs@,
                        self.mft_no as int,
                    );
                    &&& entries is Some
                    &&& v@.len() == entries->0.len()
                    &&& forall|i: int|
                        0 <= i < v@.len() ==> shows(#[trigger] v@[i], entries->0[i])
                }),
                Err(e) => self.listing_failed(*final(sb), *old(sb), e),
            },
            r is Ok ==> final(sb).unfailing(*old(sb)),
    {
        let mut entries: Vec<IndexEntry> = match self.dir_entries(sb) {
            Ok(v) => v,
            Err(e) => return Err(e),
        };
        let ghost views = crate::ntfs::index::entry_views(entries@);
        let mut out: Vec<DirEntry> = Vec::new();
        while entries.len() > 0
            invariant
                crate::ntfs::index::entry_views(entries@) == views.skip(out@.len() as int),
                out@.len() <= views.len(),
                forall|i: int| 0 <= i < out@.len() ==> shows(#[trigger] out@[i], views[i]),
            decreases entries@.len(),
        {
            let ghost before = entries@;
            let ghost n = out@.len() as int;
            assert(crate::ntfs::index::entry_views(before).len() == before.len());
            assert(views.skip(n)[0] == views[n]);
            let e: IndexEntry = entries.remove(0);
            assert(crate::ntfs::index::entry_views(entries@)
                =~= crate::ntfs::index::entry_views(before).skip(1));
            assert(views.skip(n).skip(1) =~= views.skip(n + 1));
            assert(e@ == views[n]);
            out.push(
                DirEntry {
                    ino: e.mft_ref % MFT_REF_LIMIT,
                    name: e.name,
                    file_type: if e.is_dir {
                        FileType::Directory
                    } else {
                        FileType::Regular
                    },
                },
            );
        }
        assert(views.skip(out@.len() as int).len() == 0);
        Ok(out)
    }

    pub fn getattr(&self) -> (r: Result<Stat, VfsError>)
        ensures
            r is Ok,
            r->Ok_0.ino == self.mft_no,
            r->Ok_0.size == self.size,
            r->Ok_0.file_type == self.file_type,
            r->Ok_0.mtime == self.mtime,
            r->Ok_0.mode == 0,
    {
        Ok(
            Stat {
                ino: self.mft_no,
                size: self.size,
                file_type: self.file_type,
                mtime: self.mtime,
                mode: 0,
            },
        )
    }

    pub fn file_type(&self) -> (r: FileType)
        ensures
            r == self.file_type,
    {
        self.file_type
    }

    pub fn ino(&self) -> (r: u64)
        ensures
            r == self.mft_no,
    {
        self.mft_no
    }

    pub fn size(&self) -> (r: u64)
        ensures
            r == self.size,
    {
        self.size
    }

    /// Refused, as is everything that would change the volume.
    pub fn write_at(&self, _offset: u64, _buf: &[u8]) -> (r: Result<usize, VfsError>)
        ensures
            r == Err::<usize, VfsError>(VfsError::ReadOnly),
    {
        Err(VfsError::ReadOnly)
    }

    pub fn create(&self, _name: &str) -> (r: Result<NtfsInode, VfsError>)
        ensures
            r == Err::<NtfsInode, VfsError>(VfsError::ReadOnly),
    {
        Err(VfsError::ReadOnly)
    }

    pub fn unlink(&self, _name: &str) -> (r: Result<(), VfsError>)
        ensures
            r == Err::<(), VfsError>(VfsError::ReadOnly),
    {
        Err(VfsError::ReadOnly)
    }

    pub fn mkdir(&self, _name: &str) -> (r: Result<NtfsInode, VfsError>)
        ensures
            r == Err::<NtfsInode, VfsError>(VfsError::ReadOnly),
    {
        Err(VfsError::ReadOnly)
    }

    pub fn rmdir(&self, _name: &str) -> (r: Result<(), VfsError>)
        ensures
            r == Err::<(), VfsError>(VfsError::ReadOnly),
    {
        Err(VfsError::ReadOnly)
    }

    pub fn rename(&self, _old_name: &str, _new_name: &str) -> (r: Result<(), VfsError>)
        ensures
            r == Err::<(), VfsError>(VfsError::ReadOnly),
    {
        Err(VfsError::ReadOnly)
    }

    pub fn truncate(&self, _len: u64) -> (r: Result<(), VfsError>)
        ensures
            r == Err::<(), VfsError>(VfsError::ReadOnly),
    {
        Err(VfsError::ReadOnly)
    }
}

/// A line of a listing shows the entry `e`.
pub open spec fn shows(d: DirEntry, e: IndexEntryView) -> bool {
    &&& d.ino == crate::ntfs::attr::record_no(e.mft_ref as int)
    &&& d.name@ == e.name
    &&& d.file_type == (if e.is_dir {
        FileType::Directory
    } else {
        FileType::Regular
    })
}

} // verus!
