use peer_ledger::chain::ChainState;
use peer_ledger::peers::{
    active_peers, block_peer, blocked_peer_list, clear_blocked_peers, merge_peers, normalize_peer, push_peer_values,
    restore_peers, sort_dedup, unblock_peer,
};

fn strings(v: &[&str]) -> Vec<String> {
    v.iter().map(|s| s.to_string()).collect()
}

#[test]
fn normalizes_peer_addresses() {
    assert_eq!(normalize_peer("127.0.0.1:9001", "9000"), "127.0.0.1:9001");
    assert_eq!(normalize_peer("  127.0.0.1  ", "9000"), "127.0.0.1:9000");
    assert_eq!(normalize_peer("http://host:1/", "9000"), "host:1");
    assert_eq!(normalize_peer("https://host///", "9000"), "host:9000");
    assert_eq!(normalize_peer("http://http://host", "9000"), "host:9000");
    assert_eq!(normalize_peer("   ", "9000"), "");
    assert_eq!(normalize_peer("http://", "9000"), "");
    assert_eq!(normalize_peer("\thost\n", "1"), "host:1");
}

#[test]
fn normalized_peer_always_names_a_port() {
    for p in ["a", " b ", "http://c/", "d:1", "https://e:2//"] {
        let n = normalize_peer(p, "7");
        assert!(n.contains(':'));
    }
}

#[test]
fn pushes_comma_separated_peers() {
    let mut peers = strings(&["x:1"]);
    push_peer_values(&mut peers, "a, http://b:2/ ,,c", "9000");
    assert_eq!(peers, strings(&["x:1", "a:9000", "b:2", "c:9000"]));
}

#[test]
fn sorts_and_dedups_peers() {
    let mut peers = strings(&["b:1", "a:1", "b:1", "c:1", "a:1"]);
    sort_dedup(&mut peers);
    assert_eq!(peers, strings(&["a:1", "b:1", "c:1"]));
    let mut again = peers.clone();
    sort_dedup(&mut again);
    assert_eq!(again, peers);
}

#[test]
fn merges_new_peers_only() {
    let mut peers = strings(&["b:1", "a:1"]);
    let found = merge_peers(&mut peers, "me:1", &strings(&["c:1", "me:1", "a:1", "c:1", "0:1"]));
    assert_eq!(found, strings(&["c:1", "0:1"]));
    assert_eq!(peers, strings(&["0:1", "a:1", "b:1", "c:1"]));

    let mut unchanged = strings(&["b:1", "a:1"]);
    let found = merge_peers(&mut unchanged, "me:1", &strings(&["a:1", "me:1"]));
    assert!(found.is_empty());
    assert_eq!(unchanged, strings(&["b:1", "a:1"]));
}

#[test]
fn active_peers_skip_self_and_blocked() {
    let mut chain = ChainState::new(1);
    assert!(block_peer(&mut chain, "me:1", "b:1"));
    assert!(!block_peer(&mut chain, "me:1", "me:1"));
    let peers = strings(&["a:1", "me:1", "b:1", "c:1"]);
    assert_eq!(active_peers(&peers, "me:1", &chain), strings(&["a:1", "c:1"]));
    unblock_peer(&mut chain, "b:1");
    assert_eq!(active_peers(&peers, "me:1", &chain), strings(&["a:1", "b:1", "c:1"]));
}

#[test]
fn blocked_peer_list_is_sorted() {
    let mut chain = ChainState::new(1);
    block_peer(&mut chain, "me:1", "z:1");
    block_peer(&mut chain, "me:1", "a:1");
    block_peer(&mut chain, "me:1", "z:1");
    assert_eq!(blocked_peer_list(&chain), strings(&["a:1", "z:1"]));
    clear_blocked_peers(&mut chain);
    assert!(blocked_peer_list(&chain).is_empty());
}

#[test]
fn sorted_peer_list_depends_only_on_the_addresses() {
    let mut first = strings(&["c:1", "a:1", "b:1", "a:1"]);
    let mut second = strings(&["b:1", "b:1", "c:1", "a:1"]);
    sort_dedup(&mut first);
    sort_dedup(&mut second);
    assert_eq!(first, second);
}

#[test]
fn restored_peers_are_sorted_unique_and_exclude_self() {
    let mut peers = strings(&["c:3", "me:1", "a:1"]);
    restore_peers(&mut peers, "me:1", strings(&["b:2", "a:1", "me:1", "c:3"]));
    assert_eq!(peers, strings(&["a:1", "b:2", "c:3"]));
    let mut none: Vec<String> = Vec::new();
    restore_peers(&mut none, "x", Vec::new());
    assert!(none.is_empty());
}
