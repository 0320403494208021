use xcm_executor::asset::{Asset, Holding};
use xcm_executor::ledger::Ledger;
use xcm_executor::location::{Junction, Location};
use xcm_executor::trap::AssetTrap;

#[test]
fn locations_compare_by_parents_and_path() {
    let a = Location::parachain(1, 1000);
    let b = Location::parachain(1, 1000);
    let c = Location::parachain(0, 1000);
    let d = Location::parachain(1, 1001);
    assert!(a.same_as(&b));
    assert!(!a.same_as(&c));
    assert!(!a.same_as(&d));
    let mut e = Location::here();
    e.push_interior(Junction::Parachain(1000));
    assert!(e.same_as(&c));
    assert!(a.duplicate().same_as(&a));
}

#[test]
fn holding_merges_duplicate_classes() {
    let mut h = Holding::new();
    h.subsume(Asset { id: 1, amount: 30 });
    h.subsume(Asset { id: 2, amount: 5 });
    h.subsume(Asset { id: 1, amount: 12 });
    assert_eq!(h.amount(1), 42);
    assert_eq!(h.amount(2), 5);
    assert_eq!(h.assets.len(), 2);
}

#[test]
fn holding_take_is_capped_by_content() {
    let mut h = Holding::new();
    h.subsume(Asset { id: 1, amount: 30 });
    assert_eq!(h.saturating_take(1, 10), 10);
    assert_eq!(h.amount(1), 20);
    assert_eq!(h.saturating_take(1, 100), 20);
    assert_eq!(h.amount(1), 0);
    assert!(h.is_empty());
    assert_eq!(h.saturating_take(9, 100), 0);
}

#[test]
fn ledger_withdraw_fails_closed() {
    let alice = Location::account(0, 1);
    let mut l = Ledger::new();
    l.deposit(&alice, Asset { id: 1, amount: 50 });
    assert!(!l.withdraw(&alice, Asset { id: 1, amount: 51 }));
    assert_eq!(l.balance(&alice, 1), 50);
    assert!(l.withdraw(&alice, Asset { id: 1, amount: 50 }));
    assert_eq!(l.balance(&alice, 1), 0);
    assert!(!l.withdraw(&alice, Asset { id: 2, amount: 1 }));
}

#[test]
fn trap_claim_is_exact_and_once() {
    let origin = Location::parachain(1, 2000);
    let other = Location::parachain(1, 2001);
    let mut t = AssetTrap::new();
    t.drop_assets(&origin, vec![Asset { id: 1, amount: 7 }]);
    assert!(t.claim(&other, &vec![Asset { id: 1, amount: 7 }]).is_none());
    assert!(t.claim(&origin, &vec![Asset { id: 1, amount: 6 }]).is_none());
    assert_eq!(t.entries.len(), 1);
    assert_eq!(t.claim(&origin, &vec![Asset { id: 1, amount: 7 }]), Some(vec![Asset { id: 1, amount: 7 }]));
    assert_eq!(t.entries.len(), 0);
    assert!(t.claim(&origin, &vec![Asset { id: 1, amount: 7 }]).is_none());
}

#[test]
fn trap_claim_ignores_order() {
    let origin = Location::parachain(1, 2000);
    let mut t = AssetTrap::new();
    t.drop_assets(&origin, vec![Asset { id: 1, amount: 7 }, Asset { id: 2, amount: 3 }]);
    assert!(t.claim(&origin, &vec![Asset { id: 2, amount: 3 }]).is_none());
    let got = t.claim(&origin, &vec![Asset { id: 2, amount: 3 }, Asset { id: 1, amount: 7 }]);
    assert_eq!(got, Some(vec![Asset { id: 1, amount: 7 }, Asset { id: 2, amount: 3 }]));
    assert_eq!(t.entries.len(), 0);
}
