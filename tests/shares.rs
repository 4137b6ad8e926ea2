use secagg_sim::shares::{AggregatableShares, Share};

#[test]
fn shares_create_tree() {
    let a = Share::new(1, 123);
    let b = Share::new(2, 125);
    let c = Share::new(3, 1243);
    let v = vec![a, b, c];
    let result = v.aggregate();

    assert_eq!(result.share, 6);
    assert_eq!(result.count, 3);
    assert_eq!(result.id, "14127686999214930996");
}

#[test]
fn share_of_a_sender_is_named_after_it() {
    let s = Share::new(-40, 1203);
    assert_eq!(s.id, "1203");
    assert_eq!(s.count, 1);
    assert_eq!(s.share, -40);
    assert_eq!(Share::new(0, 0).id, "0");
}

#[test]
fn aggregate_value_and_count_ignore_order_and_grouping() {
    let parts = || vec![Share::new(4, 1), Share::new(-9, 2), Share::new(30, 3), Share::new(5, 4)];
    let whole = parts().aggregate();
    let mut reversed = parts();
    reversed.reverse();
    let backwards = reversed.aggregate();
    assert_eq!((whole.share, whole.count), (30, 4));
    assert_eq!((backwards.share, backwards.count), (whole.share, whole.count));
    let left = vec![Share::new(4, 1), Share::new(-9, 2)].aggregate();
    let right = vec![Share::new(30, 3), Share::new(5, 4)].aggregate();
    let regrouped = vec![left, right].aggregate();
    assert_eq!((regrouped.share, regrouped.count), (whole.share, whole.count));
    // The identifier does not depend on the order of the constituents.
    assert_eq!(whole.id, backwards.id);
    let shuffled = vec![Share::new(30, 3), Share::new(4, 1), Share::new(5, 4), Share::new(-9, 2)];
    assert_eq!(shuffled.aggregate().id, whole.id);
    assert_ne!(vec![Share::new(4, 1), Share::new(5, 5)].aggregate().id, whole.id);
}

#[test]
fn try_aggregate_refuses_overflow() {
    let v = vec![Share::new(i64::MAX, 1), Share::new(1, 2)];
    assert!(v.try_aggregate().is_none());
    let w = vec![Share::new(i64::MAX, 1), Share::new(-1, 2)];
    let s = w.try_aggregate().unwrap();
    assert_eq!(s.share, i64::MAX - 1);
    assert_eq!(s.count, 2);
    assert_eq!(s.id, w.aggregate().id);
    assert!(Vec::<Share>::new().try_aggregate().is_some());
}
