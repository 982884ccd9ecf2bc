use caryatid::subscriptions::{subscriber_queue_size, SubscriptionTable};

#[test]
fn subscription_round_trip() {
    let mut t: SubscriptionTable<u32> = SubscriptionTable::new();
    t.subscribe("test".to_string(), 7);
    assert_eq!(t.publish("test"), vec![0]);
    assert_eq!(*t.queue(0), 7);
}

#[test]
fn subscription_with_wrong_topic_gets_nothing() {
    let mut t: SubscriptionTable<u32> = SubscriptionTable::new();
    t.subscribe("test".to_string(), 7);
    assert!(t.publish("BOGUS").is_empty());
}

#[test]
fn every_matching_subscription_is_delivered_in_order() {
    let mut t: SubscriptionTable<u32> = SubscriptionTable::new();
    t.subscribe("a.*".to_string(), 1);
    t.subscribe("b.#".to_string(), 2);
    t.subscribe("#".to_string(), 3);
    t.subscribe("a.x".to_string(), 4);
    assert_eq!(t.len(), 4);
    assert_eq!(t.publish("a.x"), vec![0, 2, 3]);
    assert_eq!(t.publish("b.y.z"), vec![1, 2]);
    assert_eq!(t.publish("b"), vec![1, 2]);
}

#[test]
fn cleared_table_delivers_nothing() {
    let mut t: SubscriptionTable<u32> = SubscriptionTable::new();
    t.subscribe("#".to_string(), 1);
    t.clear();
    assert_eq!(t.len(), 0);
    assert!(t.publish("anything").is_empty());
}

#[test]
fn queue_size_defaults_to_ten() {
    assert_eq!(subscriber_queue_size(None), 10);
    assert_eq!(subscriber_queue_size(Some(3)), 3);
    assert_eq!(subscriber_queue_size(Some(-1)), usize::MAX);
}
