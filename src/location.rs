//! Hierarchical addresses in the consensus topology.

use vstd::prelude::*;

verus! {

/// One step down the topology from some position.
#[derive(Clone, Copy, Debug, PartialEq, Eq, Structural)]
pub enum Junction {
    Parachain(u32),
    AccountIndex64(u64),
    PalletInstance(u8),
    GeneralIndex(u64),
}

/// A position relative to here: go up `parents` levels, then descend through
/// `interior`.
#[derive(Debug)]
pub struct Location {
    pub parents: u8,
    pub interior: Vec<Junction>,
}

/// The mathematical value of a location: ancestor count and junction path.
pub struct LocationView {
    pub parents: nat,
    pub interior: Seq<Junction>,
}

impl View for Location {
    type V = LocationView;

    open spec fn view(&self) -> LocationView {
        LocationView { parents: self.parents as nat, interior: self.interior@ }
    }
}

impl Location {
    /// The location of this consensus system itself.
    pub fn here() -> (r: Location)
        ensures
            r@ == (LocationView { parents: 0, interior: Seq::empty() }),
    {
        Location { parents: 0, interior: Vec::new() }
    }

    pub fn new(parents: u8, interior: Vec<Junction>) -> (r: Location)
        ensures
            r@ == (LocationView { parents: parents as nat, interior: interior@ }),
    {
        Location { parents, interior }
    }

    /// A sibling or child parachain, seen from here.
    pub fn parachain(parents: u8, id: u32) -> (r: Location)
        ensures
            r@ == (LocationView { parents: parents as nat, interior: seq![Junction::Parachain(id)] }),
    {
        let mut interior: Vec<Junction> = Vec::new();
        interior.push(Junction::Parachain(id));
        proof {
            assert(interior@ =~= seq![Junction::Parachain(id)]);
        }
        Location { parents, interior }
    }

    /// An account with the given index, below this location's path.
    pub fn account(parents: u8, index: u64) -> (r: Location)
        ensures
            r@ == (LocationView {
                parents: parents as nat,
                interior: seq![Junction::AccountIndex64(index)],
            }),
    {
        let mut interior: Vec<Junction> = Vec::new();
        interior.push(Junction::AccountIndex64(index));
        proof {
            assert(interior@ =~= seq![Junction::AccountIndex64(index)]);
        }
        Location { parents, interior }
    }

    /// A copy with the same value.
    pub fn duplicate(&self) -> (r: Location)
        ensures
            r@ == self@,
    {
        let mut interior: Vec<Junction> = Vec::new();
        let mut i: usize = 0;
        while i < self.interior.len()
            invariant
                i <= self.interior.len(),
                interior@ =~= self.interior@.subrange(0, i as int),
            decreases self.interior.len() - i,
        {
            interior.push(self.interior[i]);
            i = i + 1;
        }
        proof {
            assert(interior@ =~= self.interior@);
        }
        Location { parents: self.parents, interior }
    }

    /// Descend one more level.
    pub fn push_interior(&mut self, j: Junction)
        ensures
            final(self)@ == (LocationView {
                parents: old(self)@.parents,
                interior: old(self)@.interior.push(j),
            }),
    {
        self.interior.push(j);
    }

    /// Location equality: same ancestor count and the same junction path.
    pub fn same_as(&self, other: &Location) -> (r: bool)
        ensures
            r == (self@ == other@),
    {
        if self.parents != other.parents || self.interior.len() != other.interior.len() {
            return false;
        }
        let mut i: usize = 0;
        while i < self.interior.len()
            invariant
                i <= self.interior.len(),
                self.interior.len() == other.interior.len(),
                forall|k: int| 0 <= k < i ==> self.interior@[k] == other.interior@[k],
            decreases self.interior.len() - i,
        {
            if self.interior[i] != other.interior[i] {
                return false;
            }
            i = i + 1;
        }
        proof {
            assert(self.interior@ =~= other.interior@);
        }
        true
    }
}

} // verus!
