use caryatid::mock_bus::MockBus;

#[test]
fn mock_bus_records_publishes_and_subscribes() {
    let mut b: MockBus<String> = MockBus::new();
    b.publish("test", "Hello, world!".to_string());
    b.register_subscriber("test");
    assert_eq!(b.publishes.len(), 1);
    assert_eq!(b.publishes[0].topic, "test");
    assert_eq!(b.publishes[0].message, "Hello, world!");
    assert_eq!(b.subscribes, vec!["test".to_string()]);
}
