use peer_ledger::body::{fault_request_from_json, parse_fault_request, parse_peer_request, peers_from_json, JsonValue};
use peer_ledger::chain::ChainState;
use peer_ledger::http::Request;
use peer_ledger::mining::mine_request_counts;
use peer_ledger::peers::{apply_fault_request, block_peer, blocked_peer_list};

fn post(body: &str) -> Request {
    Request::post("/peers", "10.0.0.5:9005", "127.0.0.1:9000", body.to_string())
}

#[test]
fn blank_peer_request_names_the_sender() {
    assert_eq!(parse_peer_request(&post("")).unwrap(), vec!["10.0.0.5:9005"]);
    assert_eq!(parse_peer_request(&post("  \n ")).unwrap(), vec!["10.0.0.5:9005"]);
    let mut anonymous = post("");
    anonymous.headers.clear();
    assert_eq!(parse_peer_request(&anonymous).unwrap(), Vec::<String>::new());
}

#[test]
fn peer_request_reads_address_or_array() {
    assert_eq!(parse_peer_request(&post("{\"address\":\"a:1\"}")).unwrap(), vec!["a:1"]);
    assert_eq!(parse_peer_request(&post("[\"a:1\", 7, \"b:2\", null]")).unwrap(), vec!["a:1", "b:2"]);
    assert_eq!(parse_peer_request(&post("[]")).unwrap(), Vec::<String>::new());
}

#[test]
fn peer_request_refuses_other_shapes_and_bad_json() {
    assert_eq!(parse_peer_request(&post("{\"address\":5}")).unwrap_err(), "missing peer address");
    assert_eq!(parse_peer_request(&post("{\"peer\":\"a\"}")).unwrap_err(), "missing peer address");
    assert_eq!(parse_peer_request(&post("\"a:1\"")).unwrap_err(), "missing peer address");
    let err = parse_peer_request(&post("{not json")).unwrap_err();
    let expected = serde_json::from_str::<serde_json::Value>("{not json").unwrap_err().to_string();
    assert_eq!(err, expected);
}

#[test]
fn fault_request_reads_its_members() {
    let f = parse_fault_request("{\"clear_blocked_peers\":true,\"block_peer\":\"a:1\",\"unblock_peer\":\"b:2\"}").unwrap();
    assert!(f.clear_blocked_peers);
    assert_eq!(f.block_peer.as_deref(), Some("a:1"));
    assert_eq!(f.unblock_peer.as_deref(), Some("b:2"));

    let f = parse_fault_request("{\"clear_blocked_peers\":\"yes\",\"block_peer\":3}").unwrap();
    assert!(!f.clear_blocked_peers);
    assert_eq!(f.block_peer, None);
    assert_eq!(f.unblock_peer, None);

    let f = parse_fault_request("[1,2]").unwrap();
    assert!(!f.clear_blocked_peers && f.block_peer.is_none() && f.unblock_peer.is_none());

    let err = parse_fault_request("nope").unwrap_err();
    let expected = serde_json::from_str::<serde_json::Value>("nope").unwrap_err().to_string();
    assert_eq!(err, format!("invalid debug request: {expected}"));
}

#[test]
fn fault_request_clears_blocks_and_unblocks_in_order() {
    let mut chain = ChainState::new(1);
    assert!(block_peer(&mut chain, "me:1", "old:1"));
    let f = parse_fault_request("{\"clear_blocked_peers\":true,\"block_peer\":\"x:1\",\"unblock_peer\":\"y:2\"}").unwrap();
    let events = apply_fault_request(&mut chain, "me:1", &f);
    assert_eq!(events, vec!["cleared blocked peers", "blocked x:1", "unblocked y:2"]);
    assert_eq!(blocked_peer_list(&chain), vec!["x:1"]);

    let f = parse_fault_request("{\"block_peer\":\"me:1\",\"unblock_peer\":\"x:1\"}").unwrap();
    let events = apply_fault_request(&mut chain, "me:1", &f);
    assert_eq!(events, vec!["unblocked x:1"]);
    assert!(blocked_peer_list(&chain).is_empty());
}

#[test]
fn mine_request_defaults_to_one_block_of_fifty() {
    assert_eq!(mine_request_counts(None, None), (1, 50));
    assert_eq!(mine_request_counts(Some(0), Some(3)), (1, 3));
    assert_eq!(mine_request_counts(Some(4), None), (4, 50));
}

fn text(s: &str) -> JsonValue {
    JsonValue::Str(s.to_string())
}

#[test]
fn peers_from_parsed_values() {
    let obj = JsonValue::Object(vec![("x".to_string(), JsonValue::Null), ("address".to_string(), text("p:1"))]);
    assert_eq!(peers_from_json(&obj).unwrap(), vec!["p:1"]);
    let arr = JsonValue::Array(vec![text("a"), JsonValue::Bool(true), JsonValue::Number("3".to_string()), text("b")]);
    assert_eq!(peers_from_json(&arr).unwrap(), vec!["a", "b"]);
    let wrong = JsonValue::Object(vec![("address".to_string(), JsonValue::Array(vec![]))]);
    assert_eq!(peers_from_json(&wrong).unwrap_err(), "missing peer address");
    assert_eq!(peers_from_json(&JsonValue::Null).unwrap_err(), "missing peer address");
}

#[test]
fn fault_request_from_parsed_values() {
    let obj = JsonValue::Object(vec![
        ("block_peer".to_string(), text("z:9")),
        ("clear_blocked_peers".to_string(), JsonValue::Bool(false)),
        ("unblock_peer".to_string(), JsonValue::Null),
    ]);
    let f = fault_request_from_json(&obj);
    assert!(!f.clear_blocked_peers);
    assert_eq!(f.block_peer.as_deref(), Some("z:9"));
    assert_eq!(f.unblock_peer, None);
    let f = fault_request_from_json(&JsonValue::Object(vec![("clear_blocked_peers".to_string(), JsonValue::Bool(true))]));
    assert!(f.clear_blocked_peers);
}
