use caryatid::correlation::{
    new_request_id, request_id_from_bytes, request_timeout_secs, request_topic,
    response_pattern, route_response, Correlator, ResponseOutcome, ResponseRoute,
    SubscribedTopics,
};
use caryatid::text_map::TextMap;
use caryatid::topic::match_topic;

#[test]
fn request_id_is_lower_hex_of_the_bytes() {
    let id = request_id_from_bytes([0xde, 0xad, 0xbe, 0xef, 0x00, 0x01, 0x7f, 0xa0]);
    assert_eq!(id, "deadbeef00017fa0");
}

#[test]
fn new_request_ids_are_sixteen_hex_digits() {
    for _ in 0..20 {
        let id = new_request_id();
        assert_eq!(id.len(), 16);
        assert!(id.chars().all(|c| c.is_ascii_digit() || ('a'..='f').contains(&c)));
    }
}

#[test]
fn request_and_response_topics() {
    assert_eq!(request_topic("test", "0123456789abcdef"), "test.0123456789abcdef");
    assert_eq!(response_pattern("test"), "test.*.response");
    assert_eq!(response_pattern("a.b"), "a.b.*.response");
}

#[test]
fn response_pattern_catches_the_response_topic() {
    let pattern = response_pattern("rest.get.test");
    assert!(match_topic(&pattern, "rest.get.test.0011223344556677.response"));
    assert!(!match_topic(&pattern, "rest.get.test.0011223344556677"));
    assert!(!match_topic(&pattern, "rest.get.other.0011223344556677.response"));
}

#[test]
fn route_response_finds_the_request_id() {
    match route_response("test", "test.abc.response") {
        ResponseRoute::Request(id) => assert_eq!(id, "abc"),
        _ => panic!("expected a request id"),
    }
    match route_response("test", "test.x.y.response") {
        ResponseRoute::Request(id) => assert_eq!(id, "x.y"),
        _ => panic!("expected a request id"),
    }
    assert!(matches!(route_response("test", "test.abc"), ResponseRoute::NoRequestId));
    assert!(matches!(route_response("test", "testabc.response"), ResponseRoute::NoRequestId));
    assert!(matches!(route_response("test", "test"), ResponseRoute::NoRequestId));
    assert!(matches!(route_response("test", "other.abc.response"), ResponseRoute::OtherTopic));
    assert!(matches!(route_response("test.long", "test"), ResponseRoute::OtherTopic));
}

#[test]
fn request_timeout_defaults_to_five_seconds() {
    assert_eq!(request_timeout_secs(None), 5);
    assert_eq!(request_timeout_secs(Some(1)), 1);
}

#[test]
fn responses_are_subscribed_once_per_topic() {
    let mut s = SubscribedTopics::new();
    assert!(s.mark(&"test".to_string()));
    assert!(!s.mark(&"test".to_string()));
    assert!(s.mark(&"other".to_string()));
}

#[test]
fn text_map_insert_replace_remove() {
    let mut m: TextMap<u32> = TextMap::new();
    m.insert("a".to_string(), 1);
    m.insert("b".to_string(), 2);
    m.insert("a".to_string(), 3);
    assert_eq!(m.get(&"a".to_string()), Some(&3));
    assert!(m.contains(&"b".to_string()));
    assert_eq!(m.remove(&"a".to_string()), Some(3));
    assert_eq!(m.remove(&"a".to_string()), None);
    assert!(!m.contains(&"a".to_string()));
}

#[test]
fn correlator_delivers_response_to_its_request() {
    let mut c: Correlator<&str> = Correlator::new();
    let topic = "test".to_string();
    let plan = c.begin_request(&topic, "00000000000000aa".to_string(), "first");
    assert_eq!(plan.request_topic, "test.00000000000000aa");
    assert_eq!(plan.subscribe, Some("test.*.response".to_string()));
    let plan2 = c.begin_request(&topic, "00000000000000bb".to_string(), "second");
    assert_eq!(plan2.request_topic, "test.00000000000000bb");
    assert_eq!(plan2.subscribe, None);

    match c.on_response("test", "test.00000000000000bb.response") {
        ResponseOutcome::Delivered(w) => assert_eq!(w, "second"),
        _ => panic!("expected delivery"),
    }
    match c.on_response("test", "test.00000000000000bb.response") {
        ResponseOutcome::UnknownId(id) => assert_eq!(id, "00000000000000bb"),
        _ => panic!("expected an unknown id"),
    }
    match c.on_response("test", "test.00000000000000aa.response") {
        ResponseOutcome::Delivered(w) => assert_eq!(w, "first"),
        _ => panic!("expected delivery"),
    }
    assert!(matches!(c.on_response("test", "test.zz"), ResponseOutcome::NoRequestId));
    assert!(matches!(c.on_response("test", "x.zz.response"), ResponseOutcome::OtherTopic));
}

#[test]
fn a_run_of_requests_subscribes_once_per_topic() {
    let mut c: Correlator<u32> = Correlator::new();
    let topics = ["t1", "t2", "t1", "t3", "t2", "t1"];
    let mut subscribed = Vec::new();
    for (n, t) in topics.iter().enumerate() {
        let plan = c.begin_request(&t.to_string(), format!("{:016x}", n), n as u32);
        if let Some(pattern) = plan.subscribe {
            subscribed.push(pattern);
        }
    }
    assert_eq!(subscribed, vec!["t1.*.response", "t2.*.response", "t3.*.response"]);
}
