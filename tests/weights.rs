use xcm_executor::message_queue_weights::WeightInfo;
use xcm_executor::weight::{RuntimeDbWeight, Weight};

fn rocks_db() -> RuntimeDbWeight {
    RuntimeDbWeight { read: 25_000_000, write: 100_000_000 }
}

#[test]
fn message_queue_weights_price_reads_and_writes() {
    let w = WeightInfo::new(rocks_db());
    assert_eq!(w.ready_ring_knit(), Weight::from_parts(19_320_000 + 3 * 25_000_000 + 2 * 100_000_000, 6212));
    assert_eq!(w.ready_ring_unknit(), Weight::from_parts(17_660_000 + 3 * 25_000_000 + 3 * 100_000_000, 6212));
    assert_eq!(w.service_queue_base(), Weight::from_parts(5_256_000 + 25_000_000 + 100_000_000, 3601));
    assert_eq!(w.service_page_base_completion(), Weight::from_parts(7_624_000 + 125_000_000, 109014));
    assert_eq!(w.service_page_base_no_completion(), Weight::from_parts(7_869_000 + 125_000_000, 109014));
    assert_eq!(w.service_page_item(), Weight::from_parts(295_609_000 + 200_000_000, 0));
    assert_eq!(w.bump_service_head(), Weight::from_parts(9_438_000 + 50_000_000 + 100_000_000, 3601));
    assert_eq!(w.set_service_head(), Weight::from_parts(7_773_000 + 125_000_000, 3601));
    assert_eq!(w.reap_page(), Weight::from_parts(114_042_000 + 250_000_000, 109014));
    assert_eq!(w.execute_overweight_page_removed(), Weight::from_parts(139_879_000 + 250_000_000, 109014));
    assert_eq!(w.execute_overweight_page_updated(), Weight::from_parts(208_495_000 + 250_000_000, 109014));
}

#[test]
fn message_queue_weights_with_free_database() {
    let w = WeightInfo::new(RuntimeDbWeight { read: 0, write: 0 });
    assert_eq!(w.reap_page(), Weight::from_parts(114_042_000, 109014));
    assert_eq!(w.service_page_item(), Weight::from_parts(295_609_000, 0));
}

#[test]
fn message_queue_weights_saturate() {
    let w = WeightInfo::new(RuntimeDbWeight { read: u64::MAX, write: 1 });
    assert_eq!(w.ready_ring_knit(), Weight::from_parts(u64::MAX, 6212));
}

#[test]
fn weight_saturating_and_checked_add() {
    let a = Weight::from_parts(u64::MAX - 1, 5);
    let b = Weight::from_parts(10, 7);
    assert_eq!(a.saturating_add(b), Weight::from_parts(u64::MAX, 12));
    assert_eq!(a.checked_add(b), None);
    assert_eq!(b.checked_add(b), Some(Weight::from_parts(20, 14)));
}

#[test]
fn weight_comparison_is_component_wise() {
    let a = Weight::from_parts(5, 10);
    let b = Weight::from_parts(10, 5);
    assert!(!a.all_lte(&b));
    assert!(!b.all_lte(&a));
    assert!(a.any_gt(&b));
    assert!(b.any_gt(&a));
    assert!(a.all_lte(&Weight::from_parts(5, 10)));
    assert!(!a.any_gt(&Weight::from_parts(5, 10)));
}

#[test]
fn db_weight_reads_and_writes() {
    let db = RuntimeDbWeight { read: 7, write: 11 };
    assert_eq!(db.reads(3), Weight::from_parts(21, 0));
    assert_eq!(db.writes(2), Weight::from_parts(22, 0));
    assert_eq!(db.reads(u64::MAX), Weight::from_parts(u64::MAX, 0));
}
