use caryatid::routing::{RouteConfig, RoutingTable};

fn ids(v: &[&str]) -> Vec<String> {
    v.iter().map(|s| s.to_string()).collect()
}

fn conf(pattern: Option<&str>, buses: &[&str]) -> RouteConfig {
    RouteConfig { pattern: pattern.map(|p| p.to_string()), buses: ids(buses) }
}

#[test]
fn double_route_targets_both_buses() {
    let t = RoutingTable::new(&ids(&["foo", "bar"]), &vec![conf(Some("#"), &["foo", "bar"])]);
    assert_eq!(t.targets("test"), vec![1, 0]);
}

#[test]
fn single_route_targets_only_one_bus() {
    let t = RoutingTable::new(&ids(&["foo", "bar"]), &vec![conf(Some("#"), &["foo"])]);
    assert_eq!(t.targets("test"), vec![1]);
}

#[test]
fn first_matching_route_wins() {
    let t = RoutingTable::new(
        &ids(&["foo", "bar"]),
        &vec![conf(Some("test"), &["foo"]), conf(Some("#"), &["foo", "bar"])],
    );
    assert_eq!(t.first_matching_route("test"), Some(0));
    assert_eq!(t.targets("test"), vec![1]);
    assert_eq!(t.first_matching_route("other"), Some(1));
    assert_eq!(t.targets("other"), vec![1, 0]);
}

#[test]
fn unmatched_topic_goes_nowhere() {
    let t = RoutingTable::new(&ids(&["foo"]), &vec![conf(Some("a.*"), &["foo"])]);
    assert_eq!(t.first_matching_route("b.c"), None);
    assert!(t.targets("b.c").is_empty());
    let empty = RoutingTable::new(&ids(&["foo", "bar"]), &vec![]);
    assert!(empty.targets("test").is_empty());
    assert_eq!(empty.bus_ids().len(), 2);
}

#[test]
fn unknown_bus_ids_and_patternless_routes_are_left_out() {
    let t = RoutingTable::new(
        &ids(&["foo", "bar"]),
        &vec![conf(None, &["foo"]), conf(Some("#"), &["nope", "bar"])],
    );
    assert_eq!(t.routes().len(), 1);
    assert_eq!(t.routes()[0].pattern, "#");
    assert_eq!(t.routes()[0].buses, vec![0]);
}

#[test]
fn duplicate_bus_id_is_served_by_the_last_bus() {
    let t = RoutingTable::new(&ids(&["foo", "bar", "foo"]), &vec![conf(Some("#"), &["foo"])]);
    assert_eq!(t.bus_ids(), &ids(&["bar", "foo"]));
    assert_eq!(t.bus_sources(), &vec![1, 2]);
    assert_eq!(t.targets("x"), vec![1]);
}

#[test]
fn bus_ids_are_listed_in_the_order_of_their_text() {
    let t = RoutingTable::new(&ids(&["b", "a", "c", "B", "ab", "a"]), &vec![]);
    assert_eq!(t.bus_ids(), &ids(&["B", "a", "ab", "b", "c"]));
    assert_eq!(t.bus_sources(), &vec![3, 5, 4, 0, 2]);
}
