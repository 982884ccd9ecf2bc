use std::collections::HashMap;
use caryatid::rest::{
    build_request, http_reply, path_elements, query_parameters, reply_status, request_topic, rest_port,
    rest_topic_prefix, topic_for_request, RESTResponse, RequestOutcome, DEFAULT_REST_PORT,
};

#[test]
fn rest_response_new_keeps_its_fields() {
    let r = RESTResponse::new(201, "made", "text/csv");
    assert_eq!(r.code, 201);
    assert_eq!(r.body, "made");
    assert_eq!(r.content_type, "text/csv");
}

#[test]
fn rest_response_with_text_is_plain_text() {
    let r = RESTResponse::with_text(200, "Hello, world!");
    assert_eq!(r.code, 200);
    assert_eq!(r.body, "Hello, world!");
    assert_eq!(r.content_type, "text/plain");
}

#[test]
fn rest_response_with_json_is_json() {
    let r = RESTResponse::with_json(500, "{}");
    assert_eq!(r.code, 500);
    assert_eq!(r.body, "{}");
    assert_eq!(r.content_type, "application/json");
}

#[test]
fn request_topic_lowercases_method_and_dots_path() {
    assert_eq!(request_topic("rest", "GET", "/test"), "rest.get.test");
    assert_eq!(request_topic("rest", "POST", "/a/b/"), "rest.post.a.b");
    assert_eq!(request_topic("api", "Delete", "x/y"), "api.delete.x.y");
    assert_eq!(request_topic("rest", "GET", "/"), "rest.get.");
    assert_eq!(request_topic("rest", "GET", "//"), "rest.get.");
}

#[test]
fn topic_for_request_keeps_method_as_given() {
    assert_eq!(topic_for_request("rest", "GET", "/a"), "rest.GET.a");
}

#[test]
fn path_elements_split_the_dotted_path() {
    assert_eq!(path_elements("/a/b"), vec!["a".to_string(), "b".to_string()]);
    assert_eq!(path_elements("/"), vec!["".to_string()]);
    assert_eq!(path_elements("/a.b/c/"), vec!["a".to_string(), "b".to_string(), "c".to_string()]);
}

#[test]
fn build_request_fills_every_field() {
    let r = build_request("GET".to_string(), "/test/x".to_string(), None, "body".to_string());
    assert_eq!(r.method, "GET");
    assert_eq!(r.path, "/test/x");
    assert_eq!(r.body, "body");
    assert_eq!(r.path_elements, vec!["test".to_string(), "x".to_string()]);
    assert!(r.query_parameters.is_empty());
}

#[test]
fn build_request_reads_the_query_parameters() {
    let r = build_request(
        "GET".to_string(),
        "/test/x".to_string(),
        Some("k1=v1&k2=v2"),
        String::new(),
    );
    let mut expected = HashMap::new();
    expected.insert("k1".to_string(), "v1".to_string());
    expected.insert("k2".to_string(), "v2".to_string());
    assert_eq!(r.query_parameters, expected);
}

#[test]
fn query_parameters_follow_the_piece_rules() {
    let q = query_parameters(Some("a=1&&flag&b=x=y&a=2&=empty&c="));
    let mut expected = HashMap::new();
    expected.insert("a".to_string(), "2".to_string());
    expected.insert("flag".to_string(), String::new());
    expected.insert("b".to_string(), "x=y".to_string());
    expected.insert(String::new(), "empty".to_string());
    expected.insert("c".to_string(), String::new());
    assert_eq!(q, expected);
    assert!(query_parameters(Some("")).is_empty());
    assert!(query_parameters(Some("&&")).is_empty());
    assert!(query_parameters(None).is_empty());
}

#[test]
fn rest_defaults() {
    assert_eq!(rest_topic_prefix(None), "rest");
    assert_eq!(rest_topic_prefix(Some("api".to_string())), "api");
    assert_eq!(rest_port(None), DEFAULT_REST_PORT);
    assert_eq!(rest_port(None), 4340);
    assert_eq!(rest_port(Some(8080)), 8080);
}

#[test]
fn reply_status_rejects_invalid_codes() {
    assert_eq!(reply_status(200), 200);
    assert_eq!(reply_status(100), 100);
    assert_eq!(reply_status(999), 999);
    assert_eq!(reply_status(99), 500);
    assert_eq!(reply_status(1000), 500);
    assert_eq!(reply_status(42), 500);
}

#[test]
fn http_reply_for_each_outcome() {
    let r = http_reply(RequestOutcome::NoReply);
    assert_eq!(r.status, 404);
    assert!(r.content_type.is_none());
    assert_eq!(r.body, "");

    let r = http_reply(RequestOutcome::Reply(None));
    assert_eq!(r.status, 500);
    assert!(r.content_type.is_none());

    let r = http_reply(RequestOutcome::BadBody("invalid utf-8".to_string()));
    assert_eq!(r.status, 500);
    assert_eq!(r.body, "invalid utf-8");

    let r = http_reply(RequestOutcome::Reply(Some(RESTResponse::with_text(200, "Hello, world!"))));
    assert_eq!(r.status, 200);
    assert_eq!(r.content_type, Some("text/plain".to_string()));
    assert_eq!(r.body, "Hello, world!");

    let r = http_reply(RequestOutcome::Reply(Some(RESTResponse::with_json(7, "[]"))));
    assert_eq!(r.status, 500);
    assert_eq!(r.content_type, Some("application/json".to_string()));
    assert_eq!(r.body, "[]");
}

#[test]
fn path_elements_join_back_to_the_dotted_path() {
    let topic = request_topic("rest", "GET", "/a/b/c/");
    let elements = path_elements("/a/b/c/");
    assert_eq!(format!("rest.get.{}", elements.join(".")), topic);
}
