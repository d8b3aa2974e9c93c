use peer_ledger::consensus::{
    apply_commit, build_commit, build_members, build_proposal, catch_up_step, expected_leader, quorum,
    plan_tick, round_commit, sort_transactions, usable_proposal, validate_commit_for_state, wants_commits_from, CatchUpStep,
    NodeState, RoundDecision,
};
use peer_ledger::crypto::{commit_hash, transaction_id};
use peer_ledger::ledger::{create_local_transaction, ingest_transaction, ledger_hash, IngestResult};
use peer_ledger::models::{Commit, CommitPayload, Proposal, Transaction, UnsignedTransaction, GENESIS_LEDGER_HASH};
use peer_ledger::store::StringSet;

fn state(addr: &str, peers: &[&str]) -> NodeState {
    let mut state = NodeState::new(addr.to_string(), "127.0.0.1:0".to_string());
    state.peers = peers.iter().map(|peer| peer.to_string()).collect();
    state
}

fn tx(origin: &str, seq: u64, body: &str) -> Transaction {
    let unsigned = UnsignedTransaction { origin: origin.to_string(), seq, body: body.to_string() };
    Transaction {
        id: transaction_id(&unsigned).unwrap(),
        origin: unsigned.origin,
        seq: unsigned.seq,
        body: unsigned.body,
    }
}

fn valid_commit_for(state: &NodeState, txs: Vec<Transaction>) -> Commit {
    let members = build_members(state);
    let leader = expected_leader(&members, state.next_round).unwrap();
    build_commit(CommitPayload {
        round: state.next_round,
        prev_ledger_hash: state.ledger_hash.clone(),
        leader,
        members: members.clone(),
        votes: members,
        txs,
    })
}

#[test]
fn selects_rotating_leader() {
    let members = vec!["127.0.0.1:9000".to_string(), "127.0.0.1:9001".to_string(), "127.0.0.1:9002".to_string()];

    assert_eq!(expected_leader(&members, 0).unwrap(), members[0]);
    assert_eq!(expected_leader(&members, 1).unwrap(), members[1]);
    assert_eq!(expected_leader(&members, 2).unwrap(), members[2]);
    assert_eq!(expected_leader(&members, 3).unwrap(), members[0]);
}

#[test]
fn calculates_majority_quorum() {
    assert_eq!(quorum(1), 1);
    assert_eq!(quorum(2), 2);
    assert_eq!(quorum(3), 2);
    assert_eq!(quorum(4), 3);
    assert_eq!(quorum(5), 3);
}

#[test]
fn sorts_transactions_deterministically() {
    let mut txs = vec![tx("127.0.0.1:9002", 1, "b"), tx("127.0.0.1:9001", 2, "c"), tx("127.0.0.1:9001", 1, "a")];

    sort_transactions(&mut txs);

    let ordered: Vec<_> = txs.iter().map(|tx| (tx.origin.as_str(), tx.seq, tx.body.as_str())).collect();
    assert_eq!(
        ordered,
        vec![("127.0.0.1:9001", 1, "a"), ("127.0.0.1:9001", 2, "c"), ("127.0.0.1:9002", 1, "b"),]
    );
}

#[test]
fn rejects_bad_commit_hash() {
    let state = state("127.0.0.1:9000", &["127.0.0.1:9001"]);
    let mut commit = valid_commit_for(&state, vec![tx("127.0.0.1:9000", 1, "a")]);
    commit.commit_hash = "bad".to_string();

    assert!(validate_commit_for_state(&state, &commit).unwrap_err().contains("hash"));
}

#[test]
fn rejects_duplicate_transactions() {
    let state = state("127.0.0.1:9000", &["127.0.0.1:9001"]);
    let tx = tx("127.0.0.1:9000", 1, "a");
    let commit = valid_commit_for(&state, vec![tx.clone(), tx]);

    assert!(validate_commit_for_state(&state, &commit).unwrap_err().contains("duplicate"));
}

#[test]
fn rejects_previous_hash_mismatch() {
    let mut state = state("127.0.0.1:9000", &["127.0.0.1:9001"]);
    state.ledger_hash = "local-tip".to_string();
    let mut commit = valid_commit_for(&state, vec![tx("127.0.0.1:9000", 1, "a")]);
    commit.payload.prev_ledger_hash = GENESIS_LEDGER_HASH.to_string();
    commit.commit_hash = commit_hash(&commit.payload).unwrap();

    assert!(validate_commit_for_state(&state, &commit).unwrap_err().contains("ledger hash mismatch"));
}

#[test]
fn applies_commit_and_advances_state() {
    let mut state = state("127.0.0.1:9000", &["127.0.0.1:9001"]);
    let tx = tx("127.0.0.1:9000", 1, "a");
    state.tx_pool.insert(tx.id.clone(), tx.clone());
    let commit = valid_commit_for(&state, vec![tx.clone()]);
    let commit_hash = commit.commit_hash.clone();

    apply_commit(&mut state, commit).unwrap();

    assert_eq!(state.ledger, vec![tx]);
    assert_eq!(state.ledger_hash, commit_hash);
    assert_eq!(state.next_round, 1);
    assert_eq!(state.commits.len(), 1);
    assert!(state.tx_pool.is_empty());
}

#[test]
fn new_node_state_starts_at_genesis() {
    let state = state("127.0.0.1:9000", &[]);
    assert_eq!(state.ledger_hash, "genesis");
    assert_eq!(state.next_round, 0);
    assert!(state.consensus_enabled);
    assert_eq!(state.round_secs, 2);
    assert_eq!(state.local_seq, 0);
}

#[test]
fn members_are_sorted_unique_and_skip_blocked_peers() {
    let mut state = state("127.0.0.1:9001", &["127.0.0.1:9002", "127.0.0.1:9000", "127.0.0.1:9002", "127.0.0.1:9003"]);
    state.blocked_peers.insert("127.0.0.1:9003");
    assert_eq!(build_members(&state), vec!["127.0.0.1:9000", "127.0.0.1:9001", "127.0.0.1:9002"]);
}

#[test]
fn leader_of_empty_membership_is_none() {
    let members: Vec<String> = Vec::new();
    assert_eq!(expected_leader(&members, 7), None);
}

#[test]
fn quorum_is_a_strict_majority() {
    for n in 1..50usize {
        let q = quorum(n);
        assert!(q <= n);
        assert!(2 * q > n);
    }
}

#[test]
fn leader_rotation_repeats_after_a_full_turn() {
    let members = vec!["a".to_string(), "b".to_string(), "c".to_string(), "d".to_string()];
    for round in 0..20u64 {
        assert_eq!(expected_leader(&members, round), expected_leader(&members, round + 4));
    }
}

#[test]
fn replayed_commit_is_accepted_and_changes_nothing() {
    let mut state = state("127.0.0.1:9000", &["127.0.0.1:9001"]);
    let commit = valid_commit_for(&state, vec![tx("127.0.0.1:9000", 1, "a")]);
    apply_commit(&mut state, commit.clone()).unwrap();
    let ledger_before = state.ledger.clone();
    apply_commit(&mut state, commit).unwrap();
    assert_eq!(state.ledger, ledger_before);
    assert_eq!(state.next_round, 1);
    assert_eq!(state.commits.len(), 1);
}

#[test]
fn rejects_commit_for_wrong_round() {
    let state = state("127.0.0.1:9000", &["127.0.0.1:9001"]);
    let mut commit = valid_commit_for(&state, vec![tx("127.0.0.1:9000", 1, "a")]);
    commit.payload.round = 3;
    commit.commit_hash = commit_hash(&commit.payload).unwrap();
    assert_eq!(
        validate_commit_for_state(&state, &commit).unwrap_err(),
        "commit round 3 does not match next round 0"
    );
}

#[test]
fn rejects_past_round_commit_that_conflicts() {
    let mut state = state("127.0.0.1:9000", &["127.0.0.1:9001"]);
    let commit = valid_commit_for(&state, vec![tx("127.0.0.1:9000", 1, "a")]);
    apply_commit(&mut state, commit).unwrap();
    let mut other = valid_commit_for(&state, vec![tx("127.0.0.1:9000", 2, "b")]);
    other.payload.round = 0;
    other.commit_hash = commit_hash(&other.payload).unwrap();
    assert_eq!(
        validate_commit_for_state(&state, &other).unwrap_err(),
        "commit conflicts with already committed round"
    );
}

#[test]
fn rejects_commit_without_quorum_and_with_foreign_votes() {
    let state = state("127.0.0.1:9000", &["127.0.0.1:9001", "127.0.0.1:9002"]);
    let mut commit = valid_commit_for(&state, vec![tx("127.0.0.1:9000", 1, "a")]);
    commit.payload.votes = vec!["127.0.0.1:9000".to_string()];
    commit.commit_hash = commit_hash(&commit.payload).unwrap();
    assert_eq!(validate_commit_for_state(&state, &commit).unwrap_err(), "commit does not have quorum");

    let mut commit = valid_commit_for(&state, vec![tx("127.0.0.1:9000", 1, "a")]);
    commit.payload.votes = vec!["127.0.0.1:9000".to_string(), "127.0.0.1:9999".to_string()];
    commit.commit_hash = commit_hash(&commit.payload).unwrap();
    assert_eq!(validate_commit_for_state(&state, &commit).unwrap_err(), "vote is not in members");

    let mut commit = valid_commit_for(&state, vec![tx("127.0.0.1:9000", 1, "a")]);
    commit.payload.votes = vec!["127.0.0.1:9000".to_string(), "127.0.0.1:9000".to_string()];
    commit.commit_hash = commit_hash(&commit.payload).unwrap();
    assert_eq!(validate_commit_for_state(&state, &commit).unwrap_err(), "votes must be unique");
}

#[test]
fn rejects_bad_membership_and_leader() {
    let state = state("127.0.0.1:9000", &["127.0.0.1:9001"]);
    let mut commit = valid_commit_for(&state, vec![tx("127.0.0.1:9000", 1, "a")]);
    commit.payload.members.reverse();
    commit.commit_hash = commit_hash(&commit.payload).unwrap();
    assert_eq!(validate_commit_for_state(&state, &commit).unwrap_err(), "members must be sorted and unique");

    let mut commit = valid_commit_for(&state, vec![tx("127.0.0.1:9000", 1, "a")]);
    commit.payload.members = Vec::new();
    commit.commit_hash = commit_hash(&commit.payload).unwrap();
    assert_eq!(validate_commit_for_state(&state, &commit).unwrap_err(), "members cannot be empty");

    let mut commit = valid_commit_for(&state, vec![tx("127.0.0.1:9000", 1, "a")]);
    commit.payload.leader = "127.0.0.1:9555".to_string();
    commit.commit_hash = commit_hash(&commit.payload).unwrap();
    assert_eq!(validate_commit_for_state(&state, &commit).unwrap_err(), "leader is not in members");

    let mut commit = valid_commit_for(&state, vec![tx("127.0.0.1:9000", 1, "a")]);
    commit.payload.leader = "127.0.0.1:9001".to_string();
    commit.commit_hash = commit_hash(&commit.payload).unwrap();
    assert_eq!(validate_commit_for_state(&state, &commit).unwrap_err(), "leader does not match round membership");
}

#[test]
fn rejects_forged_and_already_committed_entries() {
    let mut state = state("127.0.0.1:9000", &["127.0.0.1:9001"]);
    let mut forged = tx("127.0.0.1:9000", 1, "a");
    forged.body = "changed".to_string();
    let commit = valid_commit_for(&state, vec![forged]);
    assert_eq!(
        validate_commit_for_state(&state, &commit).unwrap_err(),
        "transaction id does not match transaction content"
    );

    let entry = tx("127.0.0.1:9000", 1, "a");
    let commit = valid_commit_for(&state, vec![entry.clone()]);
    apply_commit(&mut state, commit).unwrap();
    let again = valid_commit_for(&state, vec![entry]);
    assert_eq!(validate_commit_for_state(&state, &again).unwrap_err(), "transaction is already committed");
}

#[test]
fn proposal_lists_uncommitted_pool_entries() {
    let mut state = state("127.0.0.1:9000", &[]);
    let a = tx("127.0.0.1:9000", 1, "a");
    let b = tx("127.0.0.1:9000", 2, "b");
    state.tx_pool.insert(a.id.clone(), a.clone());
    state.tx_pool.insert(b.id.clone(), b.clone());
    state.ledger_ids.insert(&a.id);
    let proposal = build_proposal(&state, 5);
    assert_eq!(proposal.round, 5);
    assert_eq!(proposal.addr, "127.0.0.1:9000");
    assert_eq!(proposal.ledger_hash, "genesis");
    assert_eq!(proposal.pending, vec![b]);
}

fn proposal(addr: &str, pending: Vec<Transaction>) -> Proposal {
    Proposal { addr: addr.to_string(), round: 0, ledger_len: 0, ledger_hash: "genesis".to_string(), pending }
}

#[test]
fn round_commit_needs_a_quorum_of_proposals() {
    let members = vec!["a".to_string(), "b".to_string(), "c".to_string()];
    let props = vec![proposal("a", vec![tx("a", 1, "x")])];
    let decision = round_commit(0, "genesis", members, "a".to_string(), &props, &StringSet::new()).unwrap();
    match decision {
        RoundDecision::NoQuorum { got, needed } => {
            assert_eq!(got, 1);
            assert_eq!(needed, 2);
        },
        _ => panic!("expected no quorum"),
    }
}

#[test]
fn round_commit_merges_sorts_and_votes() {
    let members = vec!["a".to_string(), "b".to_string(), "c".to_string()];
    let x = tx("b", 1, "x");
    let y = tx("a", 1, "y");
    let props = vec![proposal("a", vec![x.clone(), y.clone()]), proposal("b", vec![x.clone()])];
    let decision = round_commit(0, "genesis", members.clone(), "a".to_string(), &props, &StringSet::new()).unwrap();
    match decision {
        RoundDecision::Commit(commit) => {
            assert_eq!(commit.payload.txs, vec![y, x]);
            assert_eq!(commit.payload.votes, vec!["a".to_string(), "b".to_string()]);
            assert_eq!(commit.payload.members, members);
            assert_eq!(commit.commit_hash, commit_hash(&commit.payload).unwrap());
        },
        _ => panic!("expected a commit"),
    }
}

#[test]
fn round_commit_skips_committed_entries_and_rejects_forged_ones() {
    let members = vec!["a".to_string()];
    let x = tx("a", 1, "x");
    let mut committed = StringSet::new();
    committed.insert(&x.id);
    let props = vec![proposal("a", vec![x])];
    match round_commit(0, "genesis", members.clone(), "a".to_string(), &props, &committed).unwrap() {
        RoundDecision::NothingPending => {},
        _ => panic!("expected nothing pending"),
    }
    let mut forged = tx("a", 2, "y");
    forged.seq = 9;
    let props = vec![proposal("a", vec![forged])];
    assert_eq!(
        round_commit(0, "genesis", members, "a".to_string(), &props, &StringSet::new()).unwrap_err(),
        "transaction id does not match transaction content"
    );
}

#[test]
fn usable_proposals_match_round_and_hash() {
    let p = proposal("a", Vec::new());
    assert!(usable_proposal(&p, 0, "genesis"));
    assert!(!usable_proposal(&p, 1, "genesis"));
    assert!(!usable_proposal(&p, 0, "other"));
}

#[test]
fn local_entries_count_up_and_carry_their_id() {
    let mut state = state("127.0.0.1:9000", &[]);
    let first = create_local_transaction(&mut state, "hello".to_string()).unwrap();
    let second = create_local_transaction(&mut state, "again".to_string()).unwrap();
    assert_eq!(first.seq, 1);
    assert_eq!(second.seq, 2);
    assert_eq!(first.origin, "127.0.0.1:9000");
    let unsigned = UnsignedTransaction { origin: first.origin.clone(), seq: 1, body: "hello".to_string() };
    assert_eq!(first.id, transaction_id(&unsigned).unwrap());
}

#[test]
fn ingest_pools_entries_and_ignores_repeats() {
    let mut state = state("127.0.0.1:9000", &[]);
    let entry = tx("127.0.0.1:9001", 1, "a");
    assert_eq!(ingest_transaction(&mut state, entry.clone()).unwrap(), IngestResult::Accepted);
    assert_eq!(state.tx_pool.len(), 1);
    assert_eq!(ingest_transaction(&mut state, entry).unwrap(), IngestResult::AlreadyKnown);
    assert_eq!(state.tx_pool.len(), 1);
    assert!(state.ledger.is_empty());
}

#[test]
fn ingest_without_consensus_appends_to_the_ledger() {
    let mut state = state("127.0.0.1:9000", &[]);
    state.consensus_enabled = false;
    let entry = tx("127.0.0.1:9001", 1, "a");
    assert_eq!(ingest_transaction(&mut state, entry.clone()).unwrap(), IngestResult::Accepted);
    assert!(state.tx_pool.is_empty());
    assert_eq!(state.ledger, vec![entry.clone()]);
    assert_eq!(state.ledger_hash, ledger_hash(&state.ledger).unwrap());
    assert_ne!(state.ledger_hash, "genesis");
    assert_eq!(ingest_transaction(&mut state, entry).unwrap(), IngestResult::AlreadyKnown);
}

#[test]
fn ingest_rejects_entry_with_wrong_id() {
    let mut state = state("127.0.0.1:9000", &[]);
    let mut entry = tx("127.0.0.1:9001", 1, "a");
    entry.id = "nope".to_string();
    assert_eq!(
        ingest_transaction(&mut state, entry).unwrap_err(),
        "transaction id does not match transaction content"
    );
    assert!(state.tx_pool.is_empty());
}

#[test]
fn empty_ledger_hash_is_genesis() {
    assert_eq!(ledger_hash(&[]).unwrap(), GENESIS_LEDGER_HASH);
}

#[test]
fn sorting_any_order_of_the_same_entries_gives_one_result() {
    let entries = vec![tx("b", 2, "x"), tx("a", 9, "y"), tx("b", 1, "z"), tx("a", 1, "w"), tx("c", 0, "v")];
    let mut first = entries.clone();
    sort_transactions(&mut first);
    let mut second: Vec<Transaction> = entries.iter().rev().cloned().collect();
    sort_transactions(&mut second);
    assert_eq!(first, second);
    let origins: Vec<(&str, u64)> = first.iter().map(|t| (t.origin.as_str(), t.seq)).collect();
    assert_eq!(origins, vec![("a", 1), ("a", 9), ("b", 1), ("b", 2), ("c", 0)]);
}

#[test]
fn catch_up_asks_only_peers_that_are_ahead() {
    assert!(wants_commits_from("127.0.0.1:9000", "127.0.0.1:9001", Some(3), 2));
    assert!(!wants_commits_from("127.0.0.1:9000", "127.0.0.1:9001", Some(2), 2));
    assert!(!wants_commits_from("127.0.0.1:9000", "127.0.0.1:9001", None, 0));
    assert!(!wants_commits_from("127.0.0.1:9000", "127.0.0.1:9000", Some(9), 2));
}

#[test]
fn catch_up_persists_new_rounds_skips_old_and_stops_on_error() {
    let mut node = state("127.0.0.1:9000", &["127.0.0.1:9001"]);
    let first = valid_commit_for(&node, vec![tx("127.0.0.1:9001", 1, "a")]);
    assert_eq!(catch_up_step(&mut node, first.clone()), CatchUpStep::Persist);
    assert_eq!(node.next_round, 1);
    assert_eq!(node.commits.last().unwrap().commit_hash, first.commit_hash);
    assert_eq!(node.ledger_hash, first.commit_hash);

    assert_eq!(catch_up_step(&mut node, first), CatchUpStep::Skip);
    assert_eq!(node.next_round, 1);
    assert_eq!(node.ledger.len(), 1);

    let mut bad = valid_commit_for(&node, vec![tx("127.0.0.1:9001", 2, "b")]);
    bad.commit_hash = "00".to_string();
    assert_eq!(
        catch_up_step(&mut node, bad),
        CatchUpStep::Stop("commit hash does not match payload".to_string())
    );
    assert_eq!(node.next_round, 1);
}

#[test]
fn tick_leads_only_on_its_own_round() {
    let mut node = state("127.0.0.1:9001", &["127.0.0.1:9002", "127.0.0.1:9000", "127.0.0.1:9002"]);
    let plan = plan_tick(&node);
    assert_eq!(plan.round, 0);
    assert_eq!(plan.members, vec!["127.0.0.1:9000", "127.0.0.1:9001", "127.0.0.1:9002"]);
    assert_eq!(plan.ledger_hash, node.ledger_hash);
    assert!(!plan.leads);
    node.next_round = 4;
    assert!(plan_tick(&node).leads);
    let alone = state("127.0.0.1:9005", &[]);
    assert!(plan_tick(&alone).leads);
}

#[test]
fn leader_accepts_its_own_commit() {
    let mut leader = state("127.0.0.1:9000", &["127.0.0.1:9001", "127.0.0.1:9002"]);
    let plan = plan_tick(&leader);
    assert!(plan.leads);
    let own = tx("127.0.0.1:9000", 1, "mine");
    let theirs = tx("127.0.0.1:9001", 1, "yours");
    leader.tx_pool.insert(own.id.clone(), own.clone());
    let mut props = vec![build_proposal(&leader, plan.round)];
    props.push(Proposal {
        addr: "127.0.0.1:9001".to_string(),
        round: plan.round,
        ledger_len: 0,
        ledger_hash: plan.ledger_hash.clone(),
        pending: vec![theirs.clone(), own.clone()],
    });
    let decision =
        round_commit(plan.round, &plan.ledger_hash, plan.members.clone(), leader.addr.clone(), &props, &leader.ledger_ids)
            .unwrap();
    let commit = match decision {
        RoundDecision::Commit(commit) => commit,
        _ => panic!("expected a commit"),
    };
    assert!(validate_commit_for_state(&leader, &commit).is_ok());
    apply_commit(&mut leader, commit).unwrap();
    assert_eq!(leader.next_round, 1);
    assert_eq!(leader.ledger.len(), 2);
    assert!(leader.tx_pool.is_empty());
}
