use caryatid::process::{
    decimal_text, message_file, module_library_name, module_library_path, module_name,
    parse_bus_class, rabbit_mq_exchange, rabbit_mq_url, BusClass, MessageCounter,
};

#[test]
fn bus_classes() {
    assert_eq!(parse_bus_class("in-memory"), Ok(BusClass::InMemory));
    assert_eq!(parse_bus_class("rabbit-mq"), Ok(BusClass::RabbitMQ));
    assert_eq!(parse_bus_class("kafka"), Err("Unknown message bus class kafka".to_string()));
}

#[test]
fn module_names_default_to_id() {
    assert_eq!(module_name("clock".to_string(), None), "clock");
    assert_eq!(module_name("tick".to_string(), Some("clock".to_string())), "clock");
}

#[test]
fn rabbit_mq_defaults() {
    assert_eq!(rabbit_mq_url(None), "amqp://127.0.0.1:5672/%2f");
    assert_eq!(rabbit_mq_url(Some("amqp://h".to_string())), "amqp://h");
    assert_eq!(rabbit_mq_exchange(None), "caryatid");
}

#[test]
fn module_library_defaults() {
    assert_eq!(module_library_name("sample", None), "libsample_module.so");
    assert_eq!(module_library_name("sample", Some("x.so".to_string())), "x.so");
    assert_eq!(module_library_path(None, "libsample_module.so"), "./libsample_module.so");
    assert_eq!(module_library_path(Some("/opt".to_string()), "a.so"), "/opt/a.so");
}

#[test]
fn message_files_are_numbered_in_decimal() {
    assert_eq!(decimal_text(0), vec!['0']);
    assert_eq!(decimal_text(1234567890), "1234567890".chars().collect::<Vec<_>>());
    assert_eq!(message_file(u64::MAX), format!("{}.json", u64::MAX));
    let mut c = MessageCounter::new();
    assert_eq!(c.next_file(), "0.json");
    assert_eq!(c.next_file(), "1.json");
    assert_eq!(c.next_file(), "2.json");
}
