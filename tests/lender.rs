use polygraph::lender::{newest, retain_flagged, Lender, LENDEE_CAPACITY};
use std::sync::Arc;

#[test]
fn lendees_receive_every_asset_in_order() {
    let mut lender = Lender::new();
    let mut a = lender.create_lendee();
    let mut b = lender.create_lendee();
    assert_eq!(lender.lend(Arc::new(1)), 0);
    assert_eq!(lender.lend(Arc::new(2)), 0);
    assert_eq!(*a.recv_next().unwrap(), 1);
    assert_eq!(*a.recv_latest().unwrap(), 2);
    assert!(a.recv_next().is_none());
    assert!(a.recv_latest().is_none());
    assert_eq!(*b.recv_latest().unwrap(), 2);
}

#[test]
fn cleanup_drops_released_assets_only() {
    let mut lender = Lender::new();
    let mut a = lender.create_lendee();
    let first = Arc::new(10);
    let weak_first = Arc::downgrade(&first);
    lender.lend(first);
    let second = Arc::new(20);
    let weak_second = Arc::downgrade(&second);
    lender.lend(second);
    let held = a.recv_latest().unwrap();
    assert_eq!(*held, 20);
    lender.cleanup();
    assert!(weak_first.upgrade().is_none());
    assert!(weak_second.upgrade().is_some());
    drop(held);
    lender.cleanup();
    assert!(weak_second.upgrade().is_none());
}

#[test]
fn full_lendee_misses_assets_and_dropped_lendee_is_forgotten() {
    let mut lender = Lender::new();
    let a = lender.create_lendee();
    for k in 0..LENDEE_CAPACITY {
        assert_eq!(lender.lend(Arc::new(k)), 0);
    }
    assert_eq!(lender.lend(Arc::new(0)), 1);
    drop(a);
    lender.cleanup();
    assert_eq!(lender.lend(Arc::new(1)), 0);
}

#[test]
fn retain_flagged_keeps_order() {
    let kept = retain_flagged(vec![1, 2, 3, 4, 5], &vec![true, false, true, true, false]);
    assert_eq!(kept, vec![1, 3, 4]);
    let none: Vec<u8> = retain_flagged(vec![7, 8], &vec![false, false]);
    assert!(none.is_empty());
}

#[test]
fn newest_prefers_the_popped_item() {
    assert_eq!(newest(Some(1), Some(2)), (Some(2), true));
    assert_eq!(newest(Some(1), None), (Some(1), false));
    assert_eq!(newest::<u8>(None, None), (None, false));
}

#[test]
fn cleanup_keeps_lent_order() {
    let mut lender = Lender::new();
    let mut a = lender.create_lendee();
    let held: Vec<Arc<usize>> = (0..4).map(Arc::new).collect();
    for h in &held {
        lender.lend(h.clone());
    }
    while a.recv_next().is_some() {}
    drop(held);
    lender.cleanup();
    assert_eq!(lender.lend(Arc::new(9)), 0);
    assert_eq!(*a.recv_latest().unwrap(), 9);
}
