//! The asset trap: assets left over at the end of an execution, kept under
//! the origin that owned them until that origin claims them back.

use vstd::prelude::*;
use crate::asset::{amount_of, Asset};
use crate::location::{Location, LocationView};

verus! {

/// One trapped asset set and the origin it belongs to.
#[derive(Debug)]
pub struct Trapped {
    pub origin: Location,
    pub assets: Vec<Asset>,
}

/// Total of class `id` over all trapped sets.
pub open spec fn trap_total(s: Seq<Trapped>, id: u64) -> nat
    decreases s.len(),
{
    if s.len() == 0 {
        0
    } else {
        trap_total(s.drop_last(), id) + amount_of(s.last().assets@, id)
    }
}

/// Whether two asset lists hold the same assets, in any order.
pub open spec fn same_content(a: Seq<Asset>, b: Seq<Asset>) -> bool {
    forall|x: Asset| a.contains(x) <==> b.contains(x)
}

/// Whether entry `t` is the one that `origin` names by `assets`: same origin,
/// and the same assets in any order.
pub open spec fn claim_matches(t: Trapped, origin: LocationView, assets: Seq<Asset>) -> bool {
    t.origin@ == origin && t.assets@.len() == assets.len() && same_content(t.assets@, assets)
}

/// Whether some entry of `s` matches the claim.
pub open spec fn claimable(s: Seq<Trapped>, origin: LocationView, assets: Seq<Asset>) -> bool {
    exists|k: int| 0 <= k < s.len() && claim_matches(#[trigger] s[k], origin, assets)
}

pub proof fn lemma_trap_total_push(s: Seq<Trapped>, x: Trapped, id: u64)
    ensures
        trap_total(s.push(x), id) == trap_total(s, id) + amount_of(x.assets@, id),
{
    assert(s.push(x).drop_last() =~= s);
}

pub proof fn lemma_trap_total_remove(s: Seq<Trapped>, i: int, id: u64)
    requires
        0 <= i < s.len(),
    ensures
        trap_total(s.remove(i), id) + amount_of(s[i].assets@, id) == trap_total(s, id),
    decreases s.len(),
{
    if i == s.len() - 1 {
        assert(s.remove(i) =~= s.drop_last());
    } else {
        assert(s.remove(i).drop_last() =~= s.drop_last().remove(i));
        lemma_trap_total_remove(s.drop_last(), i, id);
    }
}

/// A trapped set can be claimed at most once: when exactly one entry matches
/// a claim, no entry matches it after that entry is removed.
pub proof fn lemma_claim_at_most_once(
    s: Seq<Trapped>,
    k: int,
    origin: LocationView,
    assets: Seq<Asset>,
)
    requires
        0 <= k < s.len(),
        forall|j: int| 0 <= j < s.len() ==> (claim_matches(#[trigger] s[j], origin, assets) <==> j
            == k),
    ensures
        !claimable(s.remove(k), origin, assets),
{
    assert forall|j: int| 0 <= j < s.remove(k).len() implies !claim_matches(
        #[trigger] s.remove(k)[j],
        origin,
        assets,
    ) by {
        let j2 = if j < k { j } else { j + 1 };
        assert(s.remove(k)[j] == s[j2]);
    }
}

/// Whether every entry of `a` is among `b`.
fn all_among(a: &Vec<Asset>, b: &Vec<Asset>) -> (r: bool)
    ensures
        r == (forall|x: Asset| a@.contains(x) ==> b@.contains(x)),
{
    let mut i: usize = 0;
    while i < a.len()
        invariant
            i <= a.len(),
            forall|k: int| 0 <= k < i ==> b@.contains(#[trigger] a@[k]),
        decreases a.len() - i,
    {
        let mut found = false;
        let mut j: usize = 0;
        while j < b.len()
            invariant
                j <= b.len(),
                i < a.len(),
                found ==> b@.contains(a@[i as int]),
                !found ==> forall|k: int| 0 <= k < j ==> b@[k] != a@[i as int],
            decreases b.len() - j,
        {
            if b[j] == a[i] {
                found = true;
            }
            j = j + 1;
        }
        if !found {
            proof {
                assert(a@.contains(a@[i as int]));
            }
            return false;
        }
        i = i + 1;
    }
    proof {
        assert forall|x: Asset| a@.contains(x) implies b@.contains(x) by {
            let k = choose|k: int| 0 <= k < a@.len() && a@[k] == x;
            assert(b@.contains(a@[k]));
        }
    }
    true
}

/// Whether `a` and `b` hold the same assets, in any order.
pub fn same_assets(a: &Vec<Asset>, b: &Vec<Asset>) -> (r: bool)
    ensures
        r == same_content(a@, b@),
{
    all_among(a, b) && all_among(b, a)
}

/// The trapped sets, oldest first.
#[derive(Debug)]
pub struct AssetTrap {
    pub entries: Vec<Trapped>,
}

impl View for AssetTrap {
    type V = Seq<Trapped>;

    open spec fn view(&self) -> Seq<Trapped> {
        self.entries@
    }
}

impl AssetTrap {
    pub fn new() -> (r: AssetTrap)
        ensures
            r@.len() == 0,
    {
        AssetTrap { entries: Vec::new() }
    }

    /// Keep `assets` under `origin`.
    pub fn drop_assets(&mut self, origin: &Location, assets: Vec<Asset>)
        ensures
            final(self)@.len() == old(self)@.len() + 1,
            final(self)@.drop_last() == old(self)@,
            final(self)@.last().origin@ == origin@,
            final(self)@.last().assets@ == assets@,
            forall|c: u64| #[trigger]
                trap_total(final(self)@, c) == trap_total(old(self)@, c) + amount_of(assets@, c),
    {
        let ghost before = self@;
        let entry = Trapped { origin: origin.duplicate(), assets };
        self.entries.push(entry);
        proof {
            assert(self@.drop_last() =~= before);
            assert forall|c: u64| #[trigger]
                trap_total(self@, c) == trap_total(before, c) + amount_of(entry.assets@, c) by {
                lemma_trap_total_push(before, entry, c);
            }
        }
    }

    /// Remove the first entry that `origin` names by the set `assets`, and
    /// return what it held. Fails, changing nothing, when there is none.
    pub fn claim(&mut self, origin: &Location, assets: &Vec<Asset>) -> (got: Option<Vec<Asset>>)
        ensures
            got is Some == claimable(old(self)@, origin@, assets@),
            got is None ==> *final(self) == *old(self),
            got is Some ==> exists|k: int|
                0 <= k < old(self)@.len() && claim_matches(#[trigger] old(self)@[k], origin@, assets@)
                    && (forall|j: int| 0 <= j < k ==> !claim_matches(old(self)@[j], origin@, assets@))
                    && final(self)@ == old(self)@.remove(k) && got.unwrap()@ == old(self)@[k].assets@,
            got is Some ==> same_content(got.unwrap()@, assets@) && got.unwrap()@.len() == assets@.len(),
            got is Some ==> forall|c: u64| #[trigger]
                trap_total(final(self)@, c) + amount_of(got.unwrap()@, c) == trap_total(old(self)@, c),
    {
        let mut i: usize = 0;
        while i < self.entries.len()
            invariant
                i <= self.entries.len(),
                *self == *old(self),
                forall|k: int| 0 <= k < i ==> !claim_matches(#[trigger] self@[k], origin@, assets@),
            decreases self.entries.len() - i,
        {
            if self.entries[i].origin.same_as(origin) && self.entries[i].assets.len() == assets.len()
                && same_assets(&self.entries[i].assets, assets) {
                let ghost before = self@;
                let t = self.entries.remove(i);
                proof {
                    assert(claim_matches(before[i as int], origin@, assets@));
                    assert(self@ == before.remove(i as int));
                    assert forall|c: u64| #[trigger]
                        trap_total(self@, c) + amount_of(t.assets@, c) == trap_total(before, c) by {
                        lemma_trap_total_remove(before, i as int, c);
                    }
                }
                return Some(t.assets);
            }
            i = i + 1;
        }
        None
    }
}

} // verus!
