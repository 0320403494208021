//! Benchmarked costs of the message-queue operations, as a table of base
//! computation time, estimated proof size and database accesses.

use vstd::prelude::*;
use crate::weight::{RuntimeDbWeight, Weight};

verus! {

/// `from_parts(ref_time, 0) + from_parts(0, proof_size) + reads + writes`,
/// each addition saturating.
pub open spec fn benchmarked(
    db: RuntimeDbWeight,
    ref_time: u64,
    proof_size: u64,
    reads: u64,
    writes: u64,
) -> Weight {
    Weight { ref_time, proof_size: 0 }.spec_saturating_add(
        Weight { ref_time: 0, proof_size },
    ).spec_saturating_add(db.spec_reads(reads)).spec_saturating_add(db.spec_writes(writes))
}

/// Costs of the message-queue operations, priced with the given database
/// access weights.
#[derive(Clone, Copy, Debug, PartialEq, Eq, Structural)]
pub struct WeightInfo {
    pub db: RuntimeDbWeight,
}

impl WeightInfo {
    pub fn new(db: RuntimeDbWeight) -> (r: WeightInfo)
        ensures
            r.db == db,
    {
        WeightInfo { db }
    }

    fn measured(&self, ref_time: u64, proof_size: u64, reads: u64, writes: u64) -> (r: Weight)
        ensures
            r == benchmarked(self.db, ref_time, proof_size, reads, writes),
    {
        Weight::from_parts(ref_time, 0).saturating_add(Weight::from_parts(0, proof_size)).saturating_add(
            self.db.reads(reads),
        ).saturating_add(self.db.writes(writes))
    }

    /// Linking a queue into the ready ring.
    pub fn ready_ring_knit(&self) -> (r: Weight)
        ensures
            r == benchmarked(self.db, 19_320_000, 6212, 3, 2),
    {
        self.measured(19_320_000, 6212, 3, 2)
    }

    /// Unlinking a queue from the ready ring.
    pub fn ready_ring_unknit(&self) -> (r: Weight)
        ensures
            r == benchmarked(self.db, 17_660_000, 6212, 3, 3),
    {
        self.measured(17_660_000, 6212, 3, 3)
    }

    /// The fixed part of servicing one queue.
    pub fn service_queue_base(&self) -> (r: Weight)
        ensures
            r == benchmarked(self.db, 5_256_000, 3601, 1, 1),
    {
        self.measured(5_256_000, 3601, 1, 1)
    }

    /// The fixed part of servicing a page that completes.
    pub fn service_page_base_completion(&self) -> (r: Weight)
        ensures
            r == benchmarked(self.db, 7_624_000, 109014, 1, 1),
    {
        self.measured(7_624_000, 109014, 1, 1)
    }

    /// The fixed part of servicing a page that does not complete.
    pub fn service_page_base_no_completion(&self) -> (r: Weight)
        ensures
            r == benchmarked(self.db, 7_869_000, 109014, 1, 1),
    {
        self.measured(7_869_000, 109014, 1, 1)
    }

    /// Servicing one message of a page.
    pub fn service_page_item(&self) -> (r: Weight)
        ensures
            r == benchmarked(self.db, 295_609_000, 0, 0, 2),
    {
        self.measured(295_609_000, 0, 0, 2)
    }

    /// Advancing the service head to the next ready queue.
    pub fn bump_service_head(&self) -> (r: Weight)
        ensures
            r == benchmarked(self.db, 9_438_000, 3601, 2, 1),
    {
        self.measured(9_438_000, 3601, 2, 1)
    }

    /// Setting the service head explicitly.
    pub fn set_service_head(&self) -> (r: Weight)
        ensures
            r == benchmarked(self.db, 7_773_000, 3601, 1, 1),
    {
        self.measured(7_773_000, 3601, 1, 1)
    }

    /// Removing a stale page.
    pub fn reap_page(&self) -> (r: Weight)
        ensures
            r == benchmarked(self.db, 114_042_000, 109014, 2, 2),
    {
        self.measured(114_042_000, 109014, 2, 2)
    }

    /// Executing an overweight message whose page is then removed.
    pub fn execute_overweight_page_removed(&self) -> (r: Weight)
        ensures
            r == benchmarked(self.db, 139_879_000, 109014, 2, 2),
    {
        self.measured(139_879_000, 109014, 2, 2)
    }

    /// Executing an overweight message whose page is then updated.
    pub fn execute_overweight_page_updated(&self) -> (r: Weight)
        ensures
            r == benchmarked(self.db, 208_495_000, 109014, 2, 2),
    {
        self.measured(208_495_000, 109014, 2, 2)
    }
}

} // verus!
