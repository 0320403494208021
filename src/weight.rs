//! Two-dimensional execution cost: computation time and proof size.

use vstd::prelude::*;

verus! {

/// `a + b`, clamped at `u64::MAX`.
pub open spec fn sat_add(a: u64, b: u64) -> u64 {
    if a + b > u64::MAX {
        u64::MAX
    } else {
        (a + b) as u64
    }
}

/// `a * b`, clamped at `u64::MAX`.
pub open spec fn sat_mul(a: u64, b: u64) -> u64 {
    if a * b > u64::MAX {
        u64::MAX
    } else {
        (a * b) as u64
    }
}

/// Saturating multiplication of two `u64` values.
pub fn saturating_mul_u64(a: u64, b: u64) -> (r: u64)
    ensures
        r == sat_mul(a, b),
{
    match a.checked_mul(b) {
        Some(p) => p,
        None => u64::MAX,
    }
}

/// A cost in two dimensions: `ref_time` (computation) and `proof_size`.
#[derive(Clone, Copy, Debug, PartialEq, Eq, Structural)]
pub struct Weight {
    pub ref_time: u64,
    pub proof_size: u64,
}

impl Weight {
    /// Component-wise `self <= other`.
    pub open spec fn spec_all_lte(self, other: Weight) -> bool {
        self.ref_time <= other.ref_time && self.proof_size <= other.proof_size
    }

    /// Component-wise saturating sum.
    pub open spec fn spec_saturating_add(self, other: Weight) -> Weight {
        Weight {
            ref_time: sat_add(self.ref_time, other.ref_time),
            proof_size: sat_add(self.proof_size, other.proof_size),
        }
    }

    pub fn from_parts(ref_time: u64, proof_size: u64) -> (r: Weight)
        ensures
            r.ref_time == ref_time,
            r.proof_size == proof_size,
    {
        Weight { ref_time, proof_size }
    }

    pub fn zero() -> (r: Weight)
        ensures
            r.ref_time == 0,
            r.proof_size == 0,
    {
        Weight { ref_time: 0, proof_size: 0 }
    }

    pub fn ref_time(&self) -> (r: u64)
        ensures
            r == self.ref_time,
    {
        self.ref_time
    }

    pub fn proof_size(&self) -> (r: u64)
        ensures
            r == self.proof_size,
    {
        self.proof_size
    }

    pub fn saturating_add(self, other: Weight) -> (r: Weight)
        ensures
            r == self.spec_saturating_add(other),
    {
        Weight {
            ref_time: self.ref_time.saturating_add(other.ref_time),
            proof_size: self.proof_size.saturating_add(other.proof_size),
        }
    }

    /// Component-wise sum, or `None` when either component overflows.
    pub fn checked_add(self, other: Weight) -> (r: Option<Weight>)
        ensures
            r.is_some() <==> (self.ref_time + other.ref_time <= u64::MAX
                && self.proof_size + other.proof_size <= u64::MAX),
            r.is_some() ==> r.unwrap().ref_time == self.ref_time + other.ref_time
                && r.unwrap().proof_size == self.proof_size + other.proof_size,
    {
        match self.ref_time.checked_add(other.ref_time) {
            Some(t) => match self.proof_size.checked_add(other.proof_size) {
                Some(p) => Some(Weight { ref_time: t, proof_size: p }),
                None => None,
            },
            None => None,
        }
    }

    /// True when neither component of `self` exceeds that of `other`.
    pub fn all_lte(&self, other: &Weight) -> (r: bool)
        ensures
            r == self.spec_all_lte(*other),
    {
        self.ref_time <= other.ref_time && self.proof_size <= other.proof_size
    }

    /// True when some component of `self` exceeds that of `other`: such a cost
    /// is not affordable within `other`.
    pub fn any_gt(&self, other: &Weight) -> (r: bool)
        ensures
            r == !self.spec_all_lte(*other),
    {
        self.ref_time > other.ref_time || self.proof_size > other.proof_size
    }
}

/// The cost of one database read and of one database write.
#[derive(Clone, Copy, Debug, PartialEq, Eq, Structural)]
pub struct RuntimeDbWeight {
    pub read: u64,
    pub write: u64,
}

impl RuntimeDbWeight {
    pub open spec fn spec_reads(self, r: u64) -> Weight {
        Weight { ref_time: sat_mul(self.read, r), proof_size: 0 }
    }

    pub open spec fn spec_writes(self, w: u64) -> Weight {
        Weight { ref_time: sat_mul(self.write, w), proof_size: 0 }
    }

    /// The computation cost of `r` reads.
    pub fn reads(&self, r: u64) -> (res: Weight)
        ensures
            res == self.spec_reads(r),
    {
        Weight { ref_time: saturating_mul_u64(self.read, r), proof_size: 0 }
    }

    /// The computation cost of `w` writes.
    pub fn writes(&self, w: u64) -> (res: Weight)
        ensures
            res == self.spec_writes(w),
    {
        Weight { ref_time: saturating_mul_u64(self.write, w), proof_size: 0 }
    }
}

} // verus!
