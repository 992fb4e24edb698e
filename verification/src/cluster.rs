//! Static topology of the job: how many ranks exist and which one this
//! process is. Immutable for the lifetime of a run.

use vstd::prelude::*;

verus! {

/// Identity of this process inside the fixed set of cooperating ranks.
#[derive(Debug, Clone, Copy, PartialEq, Eq, Structural)]
pub struct ClusterInfo {
    pub partitions: usize,
    pub rank: usize,
}

impl ClusterInfo {
    /// A topology is well formed when there is at least one rank and this
    /// process is one of them.
    pub open spec fn wf(self) -> bool {
        1 <= self.partitions && self.rank < self.partitions
    }

    pub fn new(partitions: usize, rank: usize) -> (r: ClusterInfo)
        requires
            1 <= partitions,
            rank < partitions,
        ensures
            r == (ClusterInfo { partitions, rank }),
            r.wf(),
    {
        ClusterInfo { partitions, rank }
    }
}

} // verus!
