//! The account ledger that assets are withdrawn from and deposited to, and
//! the store of trapped assets left over from executions.

use vstd::prelude::*;
use crate::asset::{amount_of, share, Asset, lemma_amount_of_push};
use crate::location::{Location, LocationView};

verus! {

/// The balance of one account in one asset class.
#[derive(Debug)]
pub struct Balance {
    pub who: Location,
    pub asset: Asset,
}

/// Whether an entry of `who` counts toward a sum over `filter`: every entry
/// counts when `filter` is `None`, else only those of that account.
pub open spec fn counts(filter: Option<LocationView>, who: LocationView) -> bool {
    filter is None || filter == Some(who)
}

/// Sum of class `id` over the entries that `filter` selects.
pub open spec fn ledger_sum(s: Seq<Balance>, filter: Option<LocationView>, id: u64) -> nat
    decreases s.len(),
{
    if s.len() == 0 {
        0
    } else {
        ledger_sum(s.drop_last(), filter, id) + if counts(filter, s.last().who@) {
            share(s.last().asset, id)
        } else {
            0
        }
    }
}

/// The balance of account `who` in class `id`.
pub open spec fn balance_of(s: Seq<Balance>, who: LocationView, id: u64) -> nat {
    ledger_sum(s, Some(who), id)
}

/// The total of class `id` over all accounts.
pub open spec fn ledger_total(s: Seq<Balance>, id: u64) -> nat {
    ledger_sum(s, None, id)
}

/// What moving `a` in or out of account `who` changes in a sum over `filter`.
pub open spec fn moved(filter: Option<LocationView>, who: LocationView, a: Asset, c: u64) -> nat {
    if counts(filter, who) {
        share(a, c)
    } else {
        0
    }
}

/// At most one entry per account and class.
pub open spec fn keys_unique(s: Seq<Balance>) -> bool {
    forall|a: int, b: int|
        0 <= a < s.len() && 0 <= b < s.len() && a != b ==> !(s[a].who@ == s[b].who@
            && s[a].asset.id == s[b].asset.id)
}

pub proof fn lemma_ledger_sum_push(s: Seq<Balance>, x: Balance, f: Option<LocationView>, id: u64)
    ensures
        ledger_sum(s.push(x), f, id) == ledger_sum(s, f, id) + moved(f, x.who@, x.asset, id),
{
    assert(s.push(x).drop_last() =~= s);
}

pub proof fn lemma_ledger_sum_update(
    s: Seq<Balance>,
    i: int,
    x: Balance,
    f: Option<LocationView>,
    id: u64,
)
    requires
        0 <= i < s.len(),
    ensures
        ledger_sum(s.update(i, x), f, id) + moved(f, s[i].who@, s[i].asset, id) == ledger_sum(
            s,
            f,
            id,
        ) + moved(f, x.who@, x.asset, id),
    decreases s.len(),
{
    if i == s.len() - 1 {
        assert(s.update(i, x).drop_last() =~= s.drop_last());
    } else {
        assert(s.update(i, x).drop_last() =~= s.drop_last().update(i, x));
        lemma_ledger_sum_update(s.drop_last(), i, x, f, id);
    }
}

pub proof fn lemma_ledger_sum_absent(s: Seq<Balance>, who: LocationView, id: u64)
    requires
        forall|k: int| 0 <= k < s.len() ==> !(s[k].who@ == who && s[k].asset.id == id),
    ensures
        balance_of(s, who, id) == 0,
    decreases s.len(),
{
    if s.len() > 0 {
        lemma_ledger_sum_absent(s.drop_last(), who, id);
    }
}

/// An entry's amount never exceeds a sum that counts it.
pub proof fn lemma_ledger_entry_bound(s: Seq<Balance>, i: int, f: Option<LocationView>)
    requires
        0 <= i < s.len(),
        counts(f, s[i].who@),
    ensures
        s[i].asset.amount <= ledger_sum(s, f, s[i].asset.id),
    decreases s.len(),
{
    if i < s.len() - 1 {
        assert(s.drop_last()[i] == s[i]);
        lemma_ledger_entry_bound(s.drop_last(), i, f);
    }
}

/// With one entry per account and class, that entry's amount is the balance.
pub proof fn lemma_ledger_unique(s: Seq<Balance>, i: int)
    requires
        0 <= i < s.len(),
        keys_unique(s),
    ensures
        balance_of(s, s[i].who@, s[i].asset.id) == s[i].asset.amount,
    decreases s.len(),
{
    let who = s[i].who@;
    let id = s[i].asset.id;
    if i == s.len() - 1 {
        lemma_ledger_sum_absent(s.drop_last(), who, id);
    } else {
        assert(s.drop_last()[i] == s[i]);
        assert(keys_unique(s.drop_last()));
        lemma_ledger_unique(s.drop_last(), i);
    }
}

/// Balances of all accounts, one entry per account and class.
#[derive(Debug)]
pub struct Ledger {
    pub entries: Vec<Balance>,
}

impl View for Ledger {
    type V = Seq<Balance>;

    open spec fn view(&self) -> Seq<Balance> {
        self.entries@
    }
}

impl Ledger {
    pub open spec fn wf(&self) -> bool {
        keys_unique(self@)
    }

    pub fn new() -> (r: Ledger)
        ensures
            r.wf(),
            r@.len() == 0,
    {
        Ledger { entries: Vec::new() }
    }

    fn find(&self, who: &Location, id: u64) -> (r: Option<usize>)
        ensures
            r.is_some() ==> r.unwrap() < self@.len() && self@[r.unwrap() as int].who@ == who@
                && self@[r.unwrap() as int].asset.id == id,
            r.is_none() ==> forall|k: int|
                0 <= k < self@.len() ==> !(self@[k].who@ == who@ && self@[k].asset.id == id),
    {
        let mut i: usize = 0;
        while i < self.entries.len()
            invariant
                i <= self.entries.len(),
                forall|k: int|
                    0 <= k < i ==> !(self@[k].who@ == who@ && self@[k].asset.id == id),
            decreases self.entries.len() - i,
        {
            if self.entries[i].asset.id == id && self.entries[i].who.same_as(who) {
                return Some(i);
            }
            i = i + 1;
        }
        None
    }

    /// The balance of `who` in class `id`.
    pub fn balance(&self, who: &Location, id: u64) -> (r: u128)
        requires
            self.wf(),
        ensures
            r == balance_of(self@, who@, id),
    {
        match self.find(who, id) {
            Some(i) => {
                proof {
                    lemma_ledger_unique(self@, i as int);
                }
                self.entries[i].asset.amount
            },
            None => {
                proof {
                    lemma_ledger_sum_absent(self@, who@, id);
                }
                0
            },
        }
    }

    /// Take `a` out of the account of `who`; fails, changing nothing, when the
    /// balance is short.
    pub fn withdraw(&mut self, who: &Location, a: Asset) -> (ok: bool)
        requires
            old(self).wf(),
        ensures
            final(self).wf(),
            ok == (a.amount <= balance_of(old(self)@, who@, a.id)),
            !ok ==> *final(self) == *old(self),
            ok ==> forall|f: Option<LocationView>, c: u64| #[trigger]
                ledger_sum(final(self)@, f, c) + moved(f, who@, a, c) == ledger_sum(
                    old(self)@,
                    f,
                    c,
                ),
    {
        match self.find(who, a.id) {
            None => {
                proof {
                    lemma_ledger_sum_absent(self@, who@, a.id);
                }
                a.amount == 0
            },
            Some(i) => {
                proof {
                    lemma_ledger_unique(self@, i as int);
                }
                let cur = self.entries[i].asset.amount;
                if cur < a.amount {
                    return false;
                }
                let ghost before = self@;
                let ghost old_entry = self@[i as int];
                let left = Asset { id: a.id, amount: cur - a.amount };
                let w = self.entries[i].who.duplicate();
                let entry = Balance { who: w, asset: left };
                self.entries.set(i, entry);
                proof {
                    assert forall|f: Option<LocationView>, c: u64| #[trigger]
                        ledger_sum(self@, f, c) + moved(f, who@, a, c) == ledger_sum(
                            before,
                            f,
                            c,
                        ) by {
                        lemma_ledger_sum_update(before, i as int, self@[i as int], f, c);
                    }
                    assert forall|x: int, y: int|
                        0 <= x < self@.len() && 0 <= y < self@.len() && x != y implies !(
                        self@[x].who@ == self@[y].who@ && self@[x].asset.id
                            == self@[y].asset.id) by {
                        assert(x != i ==> self@[x] == before[x]);
                        assert(y != i ==> self@[y] == before[y]);
                    }
                }
                true
            },
        }
    }

    /// Credit `a` to the account of `who`.
    pub fn deposit(&mut self, who: &Location, a: Asset)
        requires
            old(self).wf(),
            ledger_total(old(self)@, a.id) + a.amount <= u128::MAX,
        ensures
            final(self).wf(),
            forall|f: Option<LocationView>, c: u64| #[trigger]
                ledger_sum(final(self)@, f, c) == ledger_sum(old(self)@, f, c) + moved(
                    f,
                    who@,
                    a,
                    c,
                ),
    {
        let ghost before = self@;
        match self.find(who, a.id) {
            None => {
                let w = who.duplicate();
                let entry = Balance { who: w, asset: a };
                self.entries.push(entry);
                proof {
                    assert forall|f: Option<LocationView>, c: u64| #[trigger]
                        ledger_sum(self@, f, c) == ledger_sum(before, f, c) + moved(
                            f,
                            who@,
                            a,
                            c,
                        ) by {
                        lemma_ledger_sum_push(before, entry, f, c);
                    }
                    assert forall|x: int, y: int|
                        0 <= x < self@.len() && 0 <= y < self@.len() && x != y implies !(
                        self@[x].who@ == self@[y].who@ && self@[x].asset.id
                            == self@[y].asset.id) by {
                        assert(x < before.len() ==> self@[x] == before[x]);
                        assert(y < before.len() ==> self@[y] == before[y]);
                    }
                }
            },
            Some(i) => {
                proof {
                    lemma_ledger_entry_bound(self@, i as int, None);
                }
                let cur = self.entries[i].asset.amount;
                let more = Asset { id: a.id, amount: cur + a.amount };
                let w = self.entries[i].who.duplicate();
                let entry = Balance { who: w, asset: more };
                self.entries.set(i, entry);
                proof {
                    assert forall|f: Option<LocationView>, c: u64| #[trigger]
                        ledger_sum(self@, f, c) == ledger_sum(before, f, c) + moved(
                            f,
                            who@,
                            a,
                            c,
                        ) by {
                        lemma_ledger_sum_update(before, i as int, entry, f, c);
                    }
                    assert forall|x: int, y: int|
                        0 <= x < self@.len() && 0 <= y < self@.len() && x != y implies !(
                        self@[x].who@ == self@[y].who@ && self@[x].asset.id
                            == self@[y].asset.id) by {
                        assert(x != i ==> self@[x] == before[x]);
                        assert(y != i ==> self@[y] == before[y]);
                    }
                }
            },
        }
    }
}

} // verus!
