//! Why something failed, in more detail than its error says.

use crate::blockdriver::traits;
use crate::blockdriver::traits::BlockDevice;
use vstd::prelude::*;

verus! {

/// Why the last mount failed, or a read behind it.
pub struct LastError {
    pub detail: Option<&'static str>,
}

impl LastError {
    /// The detail, where there is one.
    pub open spec fn text(self) -> Option<Seq<char>> {
        match self.detail {
            Some(d) => Some(d@),
            None => None,
        }
    }

    /// From `before`, the text was noted, where there is one, unless a detail had been noted.
    pub open spec fn noted(self, before: Self, text: Option<Seq<char>>) -> bool {
        if before.detail is Some || text is None {
            self == before
        } else {
            self.text() == text
        }
    }

    pub fn new() -> (r: Self)
        ensures
            r.detail is None,
    {
        LastError { detail: None }
    }

    pub fn last_error(&self) -> (r: Option<&'static str>)
        ensures
            r == self.detail,
    {
        self.detail
    }

    pub fn set_last_error(&mut self, s: Option<&'static str>)
        ensures
            final(self).detail == s,
    {
        self.detail = s;
    }

    /// Notes a detail, unless one has been noted: what was noted first lies closest
    /// to the cause.
    pub fn set_last_error_if_none(&mut self, s: &'static str)
        ensures
            final(self).detail == (match old(self).detail {
                Some(d) => Some(d),
                None => Some(s),
            }),
            final(self).noted(*old(self), Some(s@)),
    {
        if self.detail.is_none() {
            self.detail = Some(s);
        }
    }
}

/// What is noted of a read that the device answered with `a`.
pub open spec fn read_text(a: traits::Answer) -> Seq<char> {
    match a {
        Err(_) => "sector read: submit failed"@,
        Ok(_) => "sector read: io completion error"@,
    }
}

/// What is noted of the step from `before` to `after`: something only where the device
/// failed, and that of its last answer.
pub open spec fn fault_text<D: BlockDevice>(before: D, after: D) -> Option<Seq<char>> {
    if traits::faults(after) > traits::faults(before) {
        Some(read_text(after.answers().last()))
    } else {
        None
    }
}

} // verus!
