//! Which partitions a mount is tried on, and what the attempts come to.

use vstd::prelude::*;

use crate::partition;
use crate::partition::{PartitionInfo, PartitionTable};
use crate::vfs;
use crate::vfs::{discriminant_name, VfsError};

verus! {

/// Why a mount failed, with a word on what was tried.
pub struct MountAttemptError {
    pub error: VfsError,
    pub detail: &'static str,
}

impl MountAttemptError {
    /// The error and the text are these.
    pub open spec fn says(self, error: VfsError, detail: Seq<char>) -> bool {
        self.error == error && self.detail@ == detail
    }

    /// The attempt failed with the error of the file system.
    pub open spec fn reports(self, error: VfsError) -> bool {
        self.says(error, vfs::name_of(error))
    }
}

fn failed(error: VfsError) -> (r: MountAttemptError)
    ensures
        r.reports(error),
{
    MountAttemptError { error, detail: discriminant_name(error) }
}

/// The partitions among the first `n` that hold data, in their order.
pub open spec fn candidates(v: Seq<PartitionInfo>, n: int) -> Seq<int>
    decreases n,
{
    if n <= 0 {
        Seq::empty()
    } else if partition::is_real(v[n - 1]@) {
        candidates(v, n - 1).push(n - 1)
    } else {
        candidates(v, n - 1)
    }
}

/// The partitions that a mount is tried on, one after the other.
pub struct FirstMount {
    pub table: PartitionTable,
    pub order: Vec<usize>,
    pub at: usize,
}

/// What is to be done after an attempt.
pub enum MountStep {
    /// The mount succeeded.
    Done,
    /// Try the next partition.
    Next,
    /// No partition is left.
    Failed(MountAttemptError),
}

impl FirstMount {
    pub open spec fn wf(self) -> bool {
        &&& self.at < self.order@.len()
        &&& self.order@.map_values(|i: usize| i as int) == candidates(
            self.table.listed(),
            self.table.listed().len() as int,
        )
        &&& forall|k: int|
            0 <= k < self.order@.len() ==> (#[trigger] self.order@[k]) < self.table.listed().len()
    }

    /// The partition to try now.
    pub fn current(&self) -> (r: &PartitionInfo)
        requires
            self.wf(),
        ensures
            *r == self.table.listed()[self.order@[self.at as int] as int],
    {
        assert(self.order@[self.at as int] < self.table.listed().len());
        &self.table.partitions()[self.order[self.at]]
    }

    /// Takes note of what an attempt came to. The first success counts; where there is
    /// none, the last failure.
    pub fn attempted(&mut self, outcome: Result<(), VfsError>) -> (r: MountStep)
        requires
            old(self).wf(),
        ensures
            final(self).table == old(self).table,
            final(self).order == old(self).order,
            match outcome {
                Ok(_) => r is Done && *final(self) == *old(self),
                Err(e) => if old(self).at + 1 < old(self).order@.len() {
                    r is Next && final(self).at == old(self).at + 1 && final(self).wf()
                } else {
                    (r matches MountStep::Failed(m) && m.reports(e)) && *final(self) == *old(self)
                },
            },
    {
        match outcome {
            Ok(_) => MountStep::Done,
            Err(e) => {
                if self.at < self.order.len() - 1 {
                    self.at = self.at + 1;
                    MountStep::Next
                } else {
                    MountStep::Failed(failed(e))
                }
            },
        }
    }
}

/// The partitions on which a mount is to be tried until one succeeds: all that hold data,
/// in the order of the table. `probed` is what the device was found to hold.
pub fn mount_first_partition(probed: Result<PartitionTable, &'static str>) -> (r: Result<
    FirstMount,
    MountAttemptError,
>)
    ensures
        match probed {
            Err(s) => r matches Err(m) && m.says(VfsError::InvalidDevice, s@),
            Ok(t) => match r {
                Ok(f) => f.wf() && f.table == t && f.at == 0,
                Err(m) => m.says(VfsError::NotFound, "no non-extended partition"@) && candidates(
                    t.listed(),
                    t.listed().len() as int,
                ).len() == 0,
            },
        },
{
    let table: PartitionTable = match probed {
        Ok(t) => t,
        Err(s) => {
            return Err(MountAttemptError { error: VfsError::InvalidDevice, detail: s });
        },
    };
    let parts: &[PartitionInfo] = table.partitions();
    let ghost v = parts@;
    let mut order: Vec<usize> = Vec::new();
    let mut i: usize = 0;
    assert(order@.map_values(|i: usize| i as int) =~= Seq::<int>::empty());
    assert(parts@.len() == parts.len());
    while i < parts.len()
        invariant
            i <= parts.len(),
            v == parts@,
            order@.map_values(|i: usize| i as int) == candidates(v, i as int),
            forall|k: int| 0 <= k < order@.len() ==> (#[trigger] order@[k]) < i,
        decreases parts.len() - i,
    {
        let ghost before = order@;
        if !parts[i].is_extended && parts[i].size_sectors > 0 {
            order.push(i);
            assert(order@.map_values(|i: usize| i as int) =~= before.map_values(
                |i: usize| i as int,
            ).push(i as int));
        }
        i = i + 1;
    }
    if order.len() == 0 {
        return Err(
            MountAttemptError { error: VfsError::NotFound, detail: "no non-extended partition" },
        );
    }
    assert(v == table.listed());
    Ok(FirstMount { table, order, at: 0 })
}

/// The first partition from `from` on that has the number and does not hold others.
pub open spec fn numbered(v: Seq<PartitionInfo>, number: u32, from: int) -> Option<int>
    decreases v.len() - from,
{
    if from < 0 || from >= v.len() {
        None
    } else if v[from].number == number && !v[from].is_extended {
        Some(from)
    } else {
        numbered(v, number, from + 1)
    }
}

/// The place in the table of the partition with the number, on which a mount is to be
/// tried. `probed` is what the device was found to hold.
pub fn mount_partition(probed: &Result<PartitionTable, &'static str>, part_number: u32) -> (r:
    Result<usize, MountAttemptError>)
    ensures
        match probed {
            Err(s) => r matches Err(m) && m.says(VfsError::InvalidDevice, s@),
            Ok(t) => match r {
                Ok(k) => numbered(t.listed(), part_number, 0) == Some(k as int) && k
                    < t.listed().len(),
                Err(m) => m.says(VfsError::NotFound, "partition number not found"@) && numbered(
                    t.listed(),
                    part_number,
                    0,
                ) is None,
            },
        },
{
    let table: &PartitionTable = match probed {
        Ok(t) => t,
        Err(s) => {
            return Err(MountAttemptError { error: VfsError::InvalidDevice, detail: *s });
        },
    };
    let parts: &[PartitionInfo] = table.partitions();
    let mut i: usize = 0;
    while i < parts.len()
        invariant
            i <= parts@.len(),
            *probed matches Ok(t) && t.listed() == parts@,
            numbered(parts@, part_number, 0) == numbered(parts@, part_number, i as int),
        decreases parts@.len() - i,
    {
        if parts[i].number == part_number && !parts[i].is_extended {
            return Ok(i);
        }
        i = i + 1;
    }
    Err(MountAttemptError { error: VfsError::NotFound, detail: "partition number not found" })
}

/// What an attempt on one partition comes to.
pub fn mount_outcome(outcome: Result<(), VfsError>) -> (r: Result<(), MountAttemptError>)
    ensures
        match outcome {
            Ok(_) => r is Ok,
            Err(e) => r matches Err(m) && m.reports(e),
        },
{
    match outcome {
        Ok(_) => Ok(()),
        Err(e) => Err(failed(e)),
    }
}

} // verus!
