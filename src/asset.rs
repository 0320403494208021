//! Fungible assets, per-class totals over lists of them, and the holding
//! register.

use vstd::prelude::*;

verus! {

/// A quantity of one fungible asset class.
#[derive(Clone, Copy, Debug, PartialEq, Eq, Structural)]
pub struct Asset {
    pub id: u64,
    pub amount: u128,
}

/// What `a` contributes to the total of class `id`.
pub open spec fn share(a: Asset, id: u64) -> nat {
    if a.id == id {
        a.amount as nat
    } else {
        0
    }
}

/// Total amount of class `id` over a list of assets.
pub open spec fn amount_of(s: Seq<Asset>, id: u64) -> nat
    decreases s.len(),
{
    if s.len() == 0 {
        0
    } else {
        amount_of(s.drop_last(), id) + share(s.last(), id)
    }
}

pub proof fn lemma_amount_of_push(s: Seq<Asset>, x: Asset, id: u64)
    ensures
        amount_of(s.push(x), id) == amount_of(s, id) + share(x, id),
{
    assert(s.push(x).drop_last() =~= s);
}

pub proof fn lemma_amount_of_update(s: Seq<Asset>, i: int, x: Asset, id: u64)
    requires
        0 <= i < s.len(),
    ensures
        amount_of(s.update(i, x), id) + share(s[i], id) == amount_of(s, id) + share(x, id),
    decreases s.len(),
{
    if i == s.len() - 1 {
        assert(s.update(i, x).drop_last() =~= s.drop_last());
    } else {
        assert(s.update(i, x).drop_last() =~= s.drop_last().update(i, x));
        lemma_amount_of_update(s.drop_last(), i, x, id);
    }
}

pub proof fn lemma_amount_of_remove(s: Seq<Asset>, i: int, id: u64)
    requires
        0 <= i < s.len(),
    ensures
        amount_of(s.remove(i), id) + share(s[i], id) == amount_of(s, id),
    decreases s.len(),
{
    if i == s.len() - 1 {
        assert(s.remove(i) =~= s.drop_last());
    } else {
        assert(s.remove(i).drop_last() =~= s.drop_last().remove(i));
        lemma_amount_of_remove(s.drop_last(), i, id);
    }
}

/// With no entry of class `id`, the class total is zero.
pub proof fn lemma_amount_of_absent(s: Seq<Asset>, id: u64)
    requires
        forall|k: int| 0 <= k < s.len() ==> s[k].id != id,
    ensures
        amount_of(s, id) == 0,
    decreases s.len(),
{
    if s.len() > 0 {
        lemma_amount_of_absent(s.drop_last(), id);
    }
}

/// With one entry per class, that entry's amount is the class total.
pub proof fn lemma_amount_of_unique(s: Seq<Asset>, i: int)
    requires
        0 <= i < s.len(),
        ids_unique(s),
    ensures
        amount_of(s, s[i].id) == s[i].amount,
{
    lemma_amount_of_remove(s, i, s[i].id);
    lemma_amount_of_absent(s.remove(i), s[i].id);
}

/// A class total over a list with one entry per class fits in a `u128`.
pub proof fn lemma_amount_of_bounded(s: Seq<Asset>, id: u64)
    requires
        ids_unique(s),
    ensures
        amount_of(s, id) <= u128::MAX,
{
    if exists|k: int| 0 <= k < s.len() && s[k].id == id {
        let k = choose|k: int| 0 <= k < s.len() && s[k].id == id;
        lemma_amount_of_unique(s, k);
    } else {
        lemma_amount_of_absent(s, id);
    }
}

/// A class total over a prefix never exceeds that over the whole list.
pub proof fn lemma_amount_of_prefix(s: Seq<Asset>, i: int, id: u64)
    requires
        0 <= i <= s.len(),
    ensures
        amount_of(s.take(i), id) <= amount_of(s, id),
    decreases s.len(),
{
    if i == s.len() {
        assert(s.take(i) =~= s);
    } else {
        assert(s.take(i) =~= s.drop_last().take(i));
        lemma_amount_of_prefix(s.drop_last(), i, id);
    }
}

/// No two entries share a class.
pub open spec fn ids_unique(s: Seq<Asset>) -> bool {
    forall|a: int, b: int| 0 <= a < s.len() && 0 <= b < s.len() && a != b ==> s[a].id != s[b].id
}

/// Every entry holds a positive amount.
pub open spec fn amounts_positive(s: Seq<Asset>) -> bool {
    forall|k: int| 0 <= k < s.len() ==> s[k].amount > 0
}

/// The transient set of assets held while one program executes: one entry
/// per class, each with a positive amount.
#[derive(Debug)]
pub struct Holding {
    pub assets: Vec<Asset>,
}

impl View for Holding {
    type V = Seq<Asset>;

    open spec fn view(&self) -> Seq<Asset> {
        self.assets@
    }
}

impl Holding {
    pub open spec fn wf(&self) -> bool {
        ids_unique(self@) && amounts_positive(self@)
    }

    pub fn new() -> (r: Holding)
        ensures
            r.wf(),
            r@ == Seq::<Asset>::empty(),
    {
        Holding { assets: Vec::new() }
    }

    pub fn is_empty(&self) -> (r: bool)
        ensures
            r == (self@.len() == 0),
    {
        self.assets.len() == 0
    }

    fn find(&self, id: u64) -> (r: Option<usize>)
        ensures
            r.is_some() ==> r.unwrap() < self@.len() && self@[r.unwrap() as int].id == id,
            r.is_none() ==> forall|k: int| 0 <= k < self@.len() ==> self@[k].id != id,
    {
        let mut i: usize = 0;
        while i < self.assets.len()
            invariant
                i <= self.assets.len(),
                forall|k: int| 0 <= k < i ==> self@[k].id != id,
            decreases self.assets.len() - i,
        {
            if self.assets[i].id == id {
                return Some(i);
            }
            i = i + 1;
        }
        None
    }

    /// How much of class `id` is held.
    pub fn amount(&self, id: u64) -> (r: u128)
        requires
            self.wf(),
        ensures
            r == amount_of(self@, id),
    {
        match self.find(id) {
            Some(i) => {
                proof {
                    lemma_amount_of_unique(self@, i as int);
                }
                self.assets[i].amount
            },
            None => {
                proof {
                    lemma_amount_of_absent(self@, id);
                }
                0
            },
        }
    }

    /// Add `a`, merging it into the entry of its class.
    pub fn subsume(&mut self, a: Asset)
        requires
            old(self).wf(),
            amount_of(old(self)@, a.id) + a.amount <= u128::MAX,
        ensures
            final(self).wf(),
            final(self)@.len() <= old(self)@.len() + 1,
            forall|id: u64| #[trigger]
                amount_of(final(self)@, id) == amount_of(old(self)@, id) + share(a, id),
    {
        if a.amount == 0 {
            return;
        }
        match self.find(a.id) {
            Some(i) => {
                proof {
                    lemma_amount_of_unique(self@, i as int);
                }
                let cur = self.assets[i];
                let merged = Asset { id: a.id, amount: cur.amount + a.amount };
                let ghost before = self@;
                self.assets.set(i, merged);
                proof {
                    assert forall|id: u64| #[trigger]
                        amount_of(self@, id) == amount_of(before, id) + share(a, id) by {
                        lemma_amount_of_update(before, i as int, merged, id);
                    }
                }
            },
            None => {
                let ghost before = self@;
                self.assets.push(a);
                proof {
                    assert forall|id: u64| #[trigger]
                        amount_of(self@, id) == amount_of(before, id) + share(a, id) by {
                        lemma_amount_of_push(before, a, id);
                    }
                }
            },
        }
    }

    /// Remove up to `max` of class `id`; returns the amount removed, which is
    /// `max` or everything held of the class, whichever is less.
    pub fn saturating_take(&mut self, id: u64, max: u128) -> (taken: u128)
        requires
            old(self).wf(),
        ensures
            final(self).wf(),
            final(self)@.len() <= old(self)@.len(),
            taken as nat == if amount_of(old(self)@, id) < max {
                amount_of(old(self)@, id)
            } else {
                max as nat
            },
            forall|c: u64| #[trigger]
                amount_of(final(self)@, c) + share(Asset { id, amount: taken }, c)
                    == amount_of(old(self)@, c),
    {
        match self.find(id) {
            None => {
                proof {
                    lemma_amount_of_absent(self@, id);
                }
                0
            },
            Some(i) => {
                proof {
                    lemma_amount_of_unique(self@, i as int);
                }
                let cur = self.assets[i];
                let ghost before = self@;
                if cur.amount <= max {
                    self.assets.remove(i);
                    proof {
                        assert forall|c: u64| #[trigger]
                            amount_of(self@, c) + share(Asset { id, amount: cur.amount }, c)
                                == amount_of(before, c) by {
                            lemma_amount_of_remove(before, i as int, c);
                        }
                        assert forall|a: int, b: int|
                            0 <= a < self@.len() && 0 <= b < self@.len() && a != b implies
                            self@[a].id != self@[b].id by {
                            let a2 = if a < i { a } else { a + 1 };
                            let b2 = if b < i { b } else { b + 1 };
                            assert(self@[a] == before[a2]);
                            assert(self@[b] == before[b2]);
                        }
                    }
                    cur.amount
                } else {
                    let left = Asset { id, amount: cur.amount - max };
                    self.assets.set(i, left);
                    proof {
                        assert forall|c: u64| #[trigger]
                            amount_of(self@, c) + share(Asset { id, amount: max }, c)
                                == amount_of(before, c) by {
                            lemma_amount_of_update(before, i as int, left, c);
                        }
                    }
                    max
                }
            },
        }
    }

    /// Empty the register, handing back everything it held.
    pub fn take_all(&mut self) -> (r: Vec<Asset>)
        requires
            old(self).wf(),
        ensures
            final(self).wf(),
            final(self)@.len() == 0,
            r@ == old(self)@,
    {
        let mut out: Vec<Asset> = Vec::new();
        std::mem::swap(&mut out, &mut self.assets);
        out
    }
}

} // verus!
