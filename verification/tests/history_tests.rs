use price_oracle::history::{PriceHistory, submit_price};

#[test]
fn appends_below_capacity() {
    let mut h = PriceHistory::new(3);
    h.add(5);
    h.add(7);
    assert_eq!(h.snapshot(), vec![5, 7]);
    assert_eq!(h.len(), 2);
    assert_eq!(h.capacity(), 3);
}

#[test]
fn overwrites_at_capacity_by_price_mod_capacity() {
    let mut h = PriceHistory::new(3);
    h.add(10);
    h.add(20);
    h.add(30);
    assert_eq!(h.len(), 3);
    // 7 % 3 == 1: the middle slot is replaced, the length stays.
    h.add(7);
    assert_eq!(h.snapshot(), vec![10, 7, 30]);
    assert_eq!(h.len(), 3);
    // 9 % 3 == 0: the first slot is replaced.
    h.add(9);
    assert_eq!(h.snapshot(), vec![9, 7, 30]);
    assert_eq!(h.len(), 3);
}

#[test]
fn length_never_exceeds_capacity() {
    let mut h = PriceHistory::new(4);
    for p in 0..100u32 {
        h.add(p);
        assert!(h.len() <= 4);
    }
    assert_eq!(h.len(), 4);
}

#[test]
fn average_none_iff_empty() {
    let mut h = PriceHistory::new(2);
    assert_eq!(h.average(), None);
    h.add(1);
    assert!(h.average().is_some());
}

#[test]
fn average_is_integer_mean() {
    let mut h = PriceHistory::new(4);
    h.add(5);
    h.add(7);
    assert_eq!(h.average(), Some(6));
    h.add(7);
    // (5 + 7 + 7) / 3 == 6 with integer division.
    assert_eq!(h.average(), Some(6));
}

#[test]
fn average_saturates_instead_of_overflowing() {
    let mut h = PriceHistory::new(2);
    h.add(u32::MAX);
    h.add(u32::MAX);
    // The accumulation saturates at u32::MAX before the division.
    assert_eq!(h.average(), Some(u32::MAX / 2));
}

#[test]
fn submit_price_reports_average_and_observation() {
    let mut h = PriceHistory::new(3);
    let (avg, obs) = submit_price(&mut h, Some(9), 40);
    assert_eq!(avg, 40);
    assert_eq!(obs.price, 40);
    assert_eq!(obs.submitter, Some(9));
    let (avg2, obs2) = submit_price(&mut h, None, 20);
    assert_eq!(avg2, 30);
    assert_eq!(obs2.submitter, None);
    assert_eq!(h.snapshot(), vec![40, 20]);
}
