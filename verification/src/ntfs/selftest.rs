//! What an exercise of the driver at boot says of what it finds.
//!
//! The exercise lists a volume, compares known files with what they should hold, and
//! sees that changes are refused.

use vstd::prelude::*;
use crate::text::{decimal_digits, same_text};
use crate::vfs::{discriminant_name, DirEntry, FileType, VfsError};

verus! {

/// The deepest level of directories that is listed.
pub const MAX_DEPTH: usize = 8;

/// Bytes of a file that are read to compare it, at least, where it has that many.
pub const MAX_COMPARED: u64 = 0x10_0000;

/// The decimal digits of a number, as characters.
pub open spec fn decimal_text(n: int) -> Seq<char> {
    crate::text::decimal(n).map_values(|b: u8| b as char)
}

fn push_decimal(out: &mut String, n: u64)
    ensures
        final(out)@ == old(out)@ + decimal_text(n as int),
{
    let digits: Vec<u8> = decimal_digits(n);
    let ghost start = out@;
    let ghost all = decimal_text(n as int);
    let mut i: usize = 0;
    while i < digits.len()
        invariant
            i <= digits@.len(),
            all == digits@.map_values(|b: u8| b as char),
            out@ == start + all.take(i as int),
        decreases digits@.len() - i,
    {
        out.push(digits[i] as char);
        i = i + 1;
        assert(all.take(i as int) =~= all.take(i - 1).push(all[i - 1]));
        assert(out@ =~= start + all.take(i as int));
    }
    assert(all.take(i as int) =~= all);
}

/// Two spaces for each level.
pub open spec fn indent_text(depth: int) -> Seq<char>
    decreases depth,
{
    if depth <= 0 {
        Seq::empty()
    } else {
        indent_text(depth - 1) + "  "@
    }
}

fn push_indent(out: &mut String, depth: usize)
    ensures
        final(out)@ == old(out)@ + indent_text(depth as int),
{
    let ghost start = out@;
    let mut i: usize = 0;
    assert(out@ =~= start + indent_text(0));
    while i < depth
        invariant
            i <= depth,
            out@ == start + indent_text(i as int),
        decreases depth - i,
    {
        out.append("  ");
        i = i + 1;
        assert(out@ =~= start + indent_text(i as int));
    }
}

/// The directories at a level are listed.
pub fn lists_depth(depth: usize) -> (r: bool)
    ensures
        r == (depth <= MAX_DEPTH),
{
    depth <= MAX_DEPTH
}

/// A name is shown unless it stands for the directory itself or its parent.
pub fn is_shown(name: &str) -> (r: bool)
    ensures
        r == (name@ != "."@ && name@ != ".."@),
{
    !same_text(name, ".") && !same_text(name, "..")
}

/// The path of what stands in a directory.
pub fn child_path(path: &str, name: &str) -> (r: String)
    ensures
        r@ == path@ + "/"@ + name@,
{
    let mut out: String = path.to_string();
    out.append("/");
    out.append(name);
    out
}

/// The line of the listing that shows an entry.
pub open spec fn entry_line(depth: int, e: DirEntry) -> Seq<char> {
    let name = indent_text(depth) + e.name@;
    if e.file_type == FileType::Directory {
        name + "/\n"@
    } else {
        name + " ("@ + decimal_text(e.ino as int) + ")\n"@
    }
}

pub fn entry_text(depth: usize, e: &DirEntry) -> (r: String)
    ensures
        r@ == entry_line(depth as int, *e),
{
    let mut out: String = String::new();
    push_indent(&mut out, depth);
    assert(out@ =~= indent_text(depth as int));
    out.append(e.name.as_str());
    if e.file_type == FileType::Directory {
        out.append("/\n");
    } else {
        out.append(" (");
        push_decimal(&mut out, e.ino);
        out.append(")\n");
    }
    out
}

/// Enough of a file has been read to compare it, or all of it.
pub fn read_enough(len: u64, last: usize) -> (r: bool)
    ensures
        r == (last == 0 || len >= MAX_COMPARED),
{
    last == 0 || len >= MAX_COMPARED
}

fn same_bytes(a: &[u8], b: &[u8]) -> (r: bool)
    ensures
        r == (a@ == b@),
{
    assert(a@.len() == a.len() && b@.len() == b.len());
    if a.len() != b.len() {
        return false;
    }
    let mut i: usize = 0;
    while i < a.len()
        invariant
            a@.len() == a.len(),
            a@.len() == b@.len(),
            i <= a@.len(),
            forall|k: int| 0 <= k < i ==> a@[k] == b@[k],
        decreases a@.len() - i,
    {
        if a[i] != b[i] {
            return false;
        }
        i = i + 1;
    }
    assert(a@ =~= b@);
    true
}

/// What is said of a file that should hold `expected`.
pub open spec fn content_line(
    path: Seq<char>,
    read: Result<Vec<u8>, VfsError>,
    expected: Seq<u8>,
) -> Seq<char> {
    match read {
        Ok(data) => if data@ == expected {
            "[ntfs] OK   content match "@ + path + "\n"@
        } else {
            "[ntfs] FAIL content mismatch "@ + path + " got "@ + decimal_text(data@.len() as int)
                + " bytes\n"@
        },
        Err(e) => "[ntfs] FAIL read "@ + path + ": "@ + crate::vfs::name_of(e) + "\n"@,
    }
}

/// Compares what was read of a file with what it should hold: whether it does, and what
/// is said of it.
pub fn content_text(path: &str, read: &Result<Vec<u8>, VfsError>, expected: &[u8]) -> (r: (
    bool,
    String,
))
    ensures
        r.0 == (read matches Ok(data) && data@ == expected@),
        r.1@ == content_line(path@, *read, expected@),
{
    match read {
        Ok(data) => if same_bytes(data.as_slice(), expected) {
            let mut out: String = "[ntfs] OK   content match ".to_string();
            out.append(path);
            out.append("\n");
            (true, out)
        } else {
            let mut out: String = "[ntfs] FAIL content mismatch ".to_string();
            out.append(path);
            out.append(" got ");
            push_decimal(&mut out, data.len() as u64);
            out.append(" bytes\n");
            (false, out)
        },
        Err(e) => {
            let mut out: String = "[ntfs] FAIL read ".to_string();
            out.append(path);
            out.append(": ");
            out.append(discriminant_name(*e));
            out.append("\n");
            (false, out)
        },
    }
}

/// What is said of something that failed.
pub fn failure_text(what: &str, e: VfsError) -> (r: String)
    ensures
        r@ == "[ntfs] "@ + what@ + ": "@ + crate::vfs::name_of(e) + "\n"@,
{
    let mut out: String = "[ntfs] ".to_string();
    out.append(what);
    out.append(": ");
    out.append(discriminant_name(e));
    out.append("\n");
    out
}

/// What is said of the size and the time of the large file.
pub fn stat_text(size: u64, mtime: u64) -> (r: String)
    ensures
        r@ == "[ntfs] stat big.bin size="@ + decimal_text(size as int) + " mtime="@ + decimal_text(
            mtime as int,
        ) + "\n"@,
{
    let mut out: String = "[ntfs] stat big.bin size=".to_string();
    push_decimal(&mut out, size);
    out.append(" mtime=");
    push_decimal(&mut out, mtime);
    out.append("\n");
    out
}

/// The large file holds at each place the place's remainder: the first of its last
/// sixteen bytes.
pub fn tail_sample(size: u64) -> (r: u8)
    requires
        size >= 16,
    ensures
        r == (size - 16) % 251,
{
    ((size - 16) % 251) as u8
}

/// What is said of a sample of the large file, where `first` is its first byte, if it
/// could be read.
pub fn sample_text(tail: bool, first: Option<u8>, expected: u8) -> (r: String)
    ensures
        r@ == (if first == Some(expected) {
            "[ntfs] OK   big.bin "@
        } else {
            "[ntfs] FAIL big.bin "@
        }) + (if tail {
            "tail\n"@
        } else {
            "head\n"@
        }),
{
    let good: bool = match first {
        Some(b) => b == expected,
        None => false,
    };
    let mut out: String = if good {
        "[ntfs] OK   big.bin ".to_string()
    } else {
        "[ntfs] FAIL big.bin ".to_string()
    };
    if tail {
        out.append("tail\n");
    } else {
        out.append("head\n");
    }
    out
}

/// What is said of an attempt to write.
pub fn write_text(written: &Result<usize, VfsError>) -> (r: String)
    ensures
        r@ == (match written {
            Err(VfsError::ReadOnly) => "[ntfs] OK   write rejected (read-only)\n"@,
            Ok(_) => "[ntfs] FAIL write unexpectedly succeeded\n"@,
            Err(e) => "[ntfs] FAIL write returned "@ + crate::vfs::name_of(*e) + "\n"@,
        }),
{
    match written {
        Err(VfsError::ReadOnly) => "[ntfs] OK   write rejected (read-only)\n".to_string(),
        Ok(_) => "[ntfs] FAIL write unexpectedly succeeded\n".to_string(),
        Err(e) => {
            let mut out: String = "[ntfs] FAIL write returned ".to_string();
            out.append(discriminant_name(*e));
            out.append("\n");
            out
        },
    }
}

/// The last line, with how many changes were refused.
pub fn done_text(refused: u64) -> (r: String)
    ensures
        r@ == "[ntfs] selftest done ("@ + decimal_text(refused as int)
            + " mutation ops refused)\n"@,
{
    let mut out: String = "[ntfs] selftest done (".to_string();
    push_decimal(&mut out, refused);
    out.append(" mutation ops refused)\n");
    out
}

} // verus!
