use hotpoint_router::query::{handle_route, parse_id, RouteError};
use hotpoint_router::router::find_path;
use hotpoint_router::store::{contains, find_index, is_well_formed};
use hotpoint_router::types::{Connection, Node, Step};

fn conn(to: usize, distance: u32, direction: &str) -> Connection {
    Connection { to, distance, direction: String::from(direction) }
}

fn node(id: usize, name: &str, connections: Vec<Connection>) -> Node {
    Node { id, name: String::from(name), connections }
}

/// Three nodes in a line: A -> B -> C, one-directional.
fn sample_map() -> Vec<Node> {
    vec![
        node(1, "A", vec![conn(2, 5, "N")]),
        node(2, "B", vec![conn(3, 3, "E")]),
        node(3, "C", vec![]),
    ]
}

/// A diamond: A reaches D directly and through B; B and C both lead to D.
fn diamond_map() -> Vec<Node> {
    vec![
        node(1, "A", vec![conn(2, 1, "N"), conn(3, 1, "S"), conn(4, 9, "E")]),
        node(2, "B", vec![conn(4, 1, "E")]),
        node(3, "C", vec![conn(4, 1, "E")]),
        node(4, "D", vec![]),
    ]
}

fn step(from: &str, to: &str, direction: &str, distance: u32) -> Step {
    Step {
        from: String::from(from),
        to: String::from(to),
        direction: String::from(direction),
        distance,
    }
}

#[test]
fn two_hop_route_steps() {
    let m = sample_map();
    let steps = find_path(&m, 1, 3);
    assert_eq!(steps, vec![step("A", "B", "N", 5), step("B", "C", "E", 3)]);
}

#[test]
fn reverse_direction_unreachable_yields_empty() {
    let m = sample_map();
    let steps = find_path(&m, 3, 1);
    assert!(steps.is_empty());
}

#[test]
fn same_node_yields_empty() {
    let m = sample_map();
    let steps = find_path(&m, 1, 1);
    assert!(steps.is_empty());
}

#[test]
fn same_node_yields_empty_for_every_node() {
    let m = sample_map();
    for id in [1usize, 2, 3] {
        assert!(find_path(&m, id, id).is_empty());
    }
}

#[test]
fn steps_chain_through_real_connections() {
    let m = sample_map();
    let steps = find_path(&m, 1, 3);
    assert_eq!(steps.first().unwrap().from, "A");
    assert_eq!(steps.last().unwrap().to, "C");
    for pair in steps.windows(2) {
        assert_eq!(pair[0].to, pair[1].from);
    }
}

#[test]
fn repeated_calls_agree() {
    let m = sample_map();
    let first = find_path(&m, 1, 3);
    let second = find_path(&m, 1, 3);
    assert_eq!(first, second);
}

#[test]
fn fewest_hops_route_wins() {
    let m = diamond_map();
    let steps = find_path(&m, 1, 4);
    assert_eq!(steps, vec![step("A", "D", "E", 9)]);
}

#[test]
fn first_declared_connection_breaks_ties() {
    let m = vec![
        node(1, "A", vec![conn(2, 1, "N"), conn(3, 1, "S")]),
        node(2, "B", vec![conn(4, 1, "E")]),
        node(3, "C", vec![conn(4, 1, "E")]),
        node(4, "D", vec![]),
    ];
    let steps = find_path(&m, 1, 4);
    assert_eq!(steps.len(), 2);
    assert_eq!(steps[0].to, "B");
}

#[test]
fn handle_route_success() {
    let m = sample_map();
    let r = handle_route(&m, Some("1"), Some("3"));
    assert_eq!(r, Ok(vec![step("A", "B", "N", 5), step("B", "C", "E", 3)]));
}

#[test]
fn handle_route_unknown_id_rejected() {
    let m = sample_map();
    let r = handle_route(&m, Some("99"), Some("1"));
    assert_eq!(r, Err(RouteError::UnknownId));
}

#[test]
fn handle_route_missing_from_rejected() {
    let m = sample_map();
    let r = handle_route(&m, None, Some("1"));
    assert_eq!(r, Err(RouteError::InvalidFrom));
}

#[test]
fn handle_route_non_numeric_from_rejected() {
    let m = sample_map();
    let r = handle_route(&m, Some("abc"), Some("1"));
    assert_eq!(r, Err(RouteError::InvalidFrom));
}

#[test]
fn handle_route_bad_to_rejected() {
    let m = sample_map();
    let r = handle_route(&m, Some("1"), Some("2x"));
    assert_eq!(r, Err(RouteError::InvalidTo));
}

#[test]
fn handle_route_accepts_signed_parameter() {
    let m = sample_map();
    let r = handle_route(&m, Some("+1"), Some("3"));
    assert_eq!(r, Ok(vec![step("A", "B", "N", 5), step("B", "C", "E", 3)]));
}

#[test]
fn handle_route_lone_sign_rejected_per_parameter() {
    let m = sample_map();
    assert_eq!(handle_route(&m, Some("+"), Some("3")), Err(RouteError::InvalidFrom));
    assert_eq!(handle_route(&m, Some("+1"), None), Err(RouteError::InvalidTo));
}

#[test]
fn handle_route_trivial_query() {
    let m = sample_map();
    let r = handle_route(&m, Some("1"), Some("1"));
    assert_eq!(r, Ok(vec![]));
}

#[test]
fn parse_id_accepts_digits() {
    assert_eq!(parse_id("0"), Some(0));
    assert_eq!(parse_id("42"), Some(42));
    assert_eq!(parse_id("007"), Some(7));
}

#[test]
fn parse_id_accepts_one_leading_plus() {
    assert_eq!(parse_id("+4"), Some(4));
    assert_eq!(parse_id("+0"), Some(0));
    assert_eq!(parse_id("+007"), Some(7));
}

#[test]
fn parse_id_rejects_bad_input() {
    assert_eq!(parse_id(""), None);
    assert_eq!(parse_id("4a"), None);
    assert_eq!(parse_id("-1"), None);
    assert_eq!(parse_id("+"), None);
    assert_eq!(parse_id("++4"), None);
    assert_eq!(parse_id("4+"), None);
    assert_eq!(parse_id(" 7"), None);
    assert_eq!(parse_id("340282366920938463463374607431768211456"), None);
}

#[test]
fn error_messages_match_endpoint_texts() {
    assert_eq!(RouteError::InvalidFrom.message(), "Invalid or missing 'id_from'");
    assert_eq!(RouteError::InvalidTo.message(), "Invalid or missing 'id_to'");
    assert_eq!(RouteError::UnknownId.message(), "Start or end node ID not found in map");
}

#[test]
fn store_lookups() {
    let m = sample_map();
    assert!(contains(&m, 2));
    assert!(!contains(&m, 99));
    assert_eq!(find_index(&m, 3), Some(2));
    assert_eq!(find_index(&m, 7), None);
}

#[test]
fn well_formedness_check() {
    assert!(is_well_formed(&sample_map()));
    assert!(is_well_formed(&diamond_map()));
    let duplicate_ids = vec![node(1, "A", vec![]), node(1, "B", vec![])];
    assert!(!is_well_formed(&duplicate_ids));
    let dangling_target = vec![node(1, "A", vec![conn(9, 1, "N")])];
    assert!(!is_well_formed(&dangling_target));
}
