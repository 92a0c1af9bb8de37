use effectful::pubsub::{
    hub_capacity, publish_offers, publish_result, reported_empty, reported_full, reported_size, PubSubMode,
    UNBOUNDED_CAPACITY,
};

#[test]
fn hubs_get_at_least_one_slot() {
    assert_eq!(hub_capacity(PubSubMode::Bounded, 0), 1);
    assert_eq!(hub_capacity(PubSubMode::Dropping, 4), 4);
    assert_eq!(hub_capacity(PubSubMode::Sliding, 0), 1);
    assert_eq!(hub_capacity(PubSubMode::Unbounded, 3), UNBOUNDED_CAPACITY);
    assert_eq!(UNBOUNDED_CAPACITY, 65536);
}

#[test]
fn full_bounded_and_dropping_hubs_refuse_values() {
    assert!(publish_offers(PubSubMode::Bounded, false, 1, 2));
    assert!(!publish_offers(PubSubMode::Bounded, false, 2, 2));
    assert!(!publish_offers(PubSubMode::Dropping, false, 3, 2));
    assert!(publish_offers(PubSubMode::Sliding, false, 50, 2));
    assert!(publish_offers(PubSubMode::Unbounded, false, 70000, 65536));
    assert!(!publish_offers(PubSubMode::Sliding, true, 0, 2));
    assert!(publish_result(true, true));
    assert!(!publish_result(true, false));
    assert!(!publish_result(false, true));
}

#[test]
fn shut_down_hubs_report_empty_and_full() {
    assert_eq!(reported_size(true, 5), 0);
    assert_eq!(reported_size(false, 5), 5);
    assert!(reported_empty(true, 5));
    assert!(!reported_empty(false, 5));
    assert!(reported_full(true, 0, 4));
    assert!(reported_full(false, 4, 4));
    assert!(!reported_full(false, 3, 4));
}
