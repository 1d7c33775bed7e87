//! Run-level decisions taken before any image is written: the block size,
//! the partition allow-list, which partitions run, and their sizes.

use vstd::prelude::*;
use crate::cmd::Cmd;
use crate::error::{ExtractError, ManifestField};
use crate::manifest::{DeltaArchiveManifest, PartitionUpdate};

verus! {

/// Some partition of the list is named `name`.
pub open spec fn has_partition(ps: Seq<PartitionUpdate>, name: Seq<char>) -> bool {
    exists|i: int| 0 <= i < ps.len() && (#[trigger] ps[i]).partition_name@ == name
}

/// A partition named `name` takes part in a run that asked for `requested`:
/// an empty list asks for all of them.
pub open spec fn selected(requested: Seq<String>, name: Seq<char>) -> bool {
    requested.len() == 0 || exists|j: int| 0 <= j < requested.len() && (#[trigger] requested[j])@ == name
}

/// The manifest's block size, which must be present and positive.
pub fn block_size_of(m: &DeltaArchiveManifest) -> (r: Result<usize, ExtractError>)
    ensures
        match m.block_size {
            Some(b) if b > 0 => r == Ok::<usize, ExtractError>(b as usize),
            _ => r == Err::<usize, ExtractError>(ExtractError::MalformedManifest(ManifestField::BlockSize)),
        },
{
    match m.block_size {
        Some(b) => {
            if b > 0 {
                Ok(b as usize)
            } else {
                Err(ExtractError::MalformedManifest(ManifestField::BlockSize))
            }
        },
        None => Err(ExtractError::MalformedManifest(ManifestField::BlockSize)),
    }
}

/// The declared output size of a partition.
pub fn partition_len(update: &PartitionUpdate) -> (r: Result<u64, ExtractError>)
    ensures
        match update.new_partition_size {
            Some(s) => r == Ok::<u64, ExtractError>(s),
            None => r == Err::<u64, ExtractError>(ExtractError::SizeUnspecified),
        },
{
    match update.new_partition_size {
        Some(s) => Ok(s),
        None => Err(ExtractError::SizeUnspecified),
    }
}

/// Whether some partition of `ps` is named `name`.
fn find_partition(ps: &Vec<PartitionUpdate>, name: &String) -> (r: bool)
    ensures
        r == has_partition(ps@, name@),
{
    let mut i: usize = 0;
    while i < ps.len()
        invariant
            i <= ps@.len(),
            forall|k: int| 0 <= k < i ==> (#[trigger] ps@[k]).partition_name@ != name@,
        decreases ps@.len() - i,
    {
        if ps[i].partition_name == *name {
            return true;
        }
        i = i + 1;
    }
    false
}

impl Cmd {
    /// Fail with the first requested partition name that the manifest
    /// lacks; succeed where every requested name is present.
    pub fn check_partitions_exist(&self, m: &DeltaArchiveManifest) -> (r: Result<(), ExtractError>)
        ensures
            r is Ok <==> forall|j: int|
                0 <= j < self.partitions@.len() ==> has_partition(
                    m.partitions@,
                    (#[trigger] self.partitions@[j])@,
                ),
            r matches Err(e) ==> exists|j: int|
                0 <= j < self.partitions@.len() && !has_partition(
                    m.partitions@,
                    (#[trigger] self.partitions@[j])@,
                ) && e == ExtractError::PartitionNotFound(self.partitions@[j]),
    {
        let mut j: usize = 0;
        while j < self.partitions.len()
            invariant
                j <= self.partitions@.len(),
                forall|k: int|
                    0 <= k < j ==> has_partition(m.partitions@, (#[trigger] self.partitions@[k])@),
            decreases self.partitions@.len() - j,
        {
            if !find_partition(&m.partitions, &self.partitions[j]) {
                return Err(ExtractError::PartitionNotFound(self.partitions[j].clone()));
            }
            j = j + 1;
        }
        Ok(())
    }

    /// Whether the partition named `name` takes part in this run.
    pub fn is_selected(&self, name: &String) -> (r: bool)
        ensures
            r == selected(self.partitions@, name@),
    {
        if self.partitions.len() == 0 {
            return true;
        }
        let mut j: usize = 0;
        while j < self.partitions.len()
            invariant
                j <= self.partitions@.len(),
                forall|k: int| 0 <= k < j ==> (#[trigger] self.partitions@[k])@ != name@,
            decreases self.partitions@.len() - j,
        {
            if self.partitions[j] == *name {
                return true;
            }
            j = j + 1;
        }
        false
    }

    /// The indices, in manifest order, of the partitions that take part in
    /// this run.
    pub fn selected_partitions(&self, m: &DeltaArchiveManifest) -> (r: Vec<usize>)
        ensures
            forall|k: int|
                0 <= k < r@.len() ==> (#[trigger] r@[k]) < m.partitions@.len() && selected(
                    self.partitions@,
                    m.partitions@[r@[k] as int].partition_name@,
                ),
            forall|k: int, l: int| 0 <= k < l < r@.len() ==> r@[k] < r@[l],
            forall|i: int|
                0 <= i < m.partitions@.len() && selected(
                    self.partitions@,
                    (#[trigger] m.partitions@[i]).partition_name@,
                ) ==> exists|k: int| 0 <= k < r@.len() && r@[k] == i,
    {
        let mut r: Vec<usize> = Vec::new();
        let mut i: usize = 0;
        while i < m.partitions.len()
            invariant
                i <= m.partitions@.len(),
                forall|k: int|
                    0 <= k < r@.len() ==> (#[trigger] r@[k]) < i && selected(
                        self.partitions@,
                        m.partitions@[r@[k] as int].partition_name@,
                    ),
                forall|k: int, l: int| 0 <= k < l < r@.len() ==> r@[k] < r@[l],
                forall|x: int|
                    0 <= x < i && selected(
                        self.partitions@,
                        (#[trigger] m.partitions@[x]).partition_name@,
                    ) ==> exists|k: int| 0 <= k < r@.len() && r@[k] == x,
            decreases m.partitions@.len() - i,
        {
            let ghost r0 = r@;
            let sel = self.is_selected(&m.partitions[i].partition_name);
            if sel {
                r.push(i);
            }
            proof {
                assert forall|x: int|
                    0 <= x < i + 1 && selected(
                        self.partitions@,
                        (#[trigger] m.partitions@[x]).partition_name@,
                    ) implies exists|k: int| 0 <= k < r@.len() && r@[k] == x by {
                    if x < i {
                        let k = choose|k: int| 0 <= k < r0.len() && r0[k] == x;
                        assert(r@[k] == x);
                    } else {
                        assert(r@[r@.len() - 1] == x);
                    }
                }
            }
            i = i + 1;
        }
        r
    }
}

} // verus!
