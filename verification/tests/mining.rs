use peer_ledger::block::{block_hash, has_valid_pow, merkle_root};
use peer_ledger::chain::ChainState;
use peer_ledger::crypto::public_key_for_secret;
use peer_ledger::mining::{build_candidate, mining_step, prepare_candidate, search_nonce, start_message, MiningStep};
use peer_ledger::transaction::validate_reward_transaction;

const SECRET: &str = "9d61b19deffd5a60ba844af492ec2cc44449c5697b326919703bac031cae7f60";

#[test]
fn candidate_sits_on_the_tip_with_reward_first() {
    let creator = public_key_for_secret(SECRET).unwrap();
    let mut chain = ChainState::new(2);
    let tip = chain.best_tip.clone();
    let candidate = build_candidate(&mut chain, 2, &creator, 5000, 6000, 50).unwrap();
    assert_eq!(candidate.header.height, 1);
    assert_eq!(candidate.header.previous_hash, tip);
    assert_eq!(candidate.header.timestamp, 5000);
    assert_eq!(candidate.header.nonce, 0);
    assert_eq!(candidate.header.difficulty, 2);
    assert_eq!(candidate.header.creator, creator);
    assert_eq!(candidate.transactions.len(), 1);
    assert_eq!(candidate.header.tx_count, 1);
    assert_eq!(candidate.header.merkle_root, merkle_root(&candidate.transactions).unwrap());
    assert_eq!(validate_reward_transaction(&candidate.transactions[0], &creator), Ok(()));
    assert!(chain.mining.active);
    assert_eq!(chain.mining.current_height, 1);
    assert_eq!(chain.mining.candidate_parent, tip);
    assert_eq!(chain.mining.started_at_ms, 6000);
    assert!(start_message(&candidate).starts_with("start parent="));
    assert!(start_message(&candidate).ends_with(" height=1 txs=1 difficulty=2"));
}

#[test]
fn candidate_timestamp_follows_its_parent() {
    let mut chain = ChainState::new(1);
    let candidate = build_candidate(&mut chain, 1, "c", 0, 0, 5).unwrap();
    assert_eq!(candidate.header.timestamp, 1);
    let fresh = prepare_candidate(&mut chain, 1, "c", 5).unwrap();
    assert!(fresh.header.timestamp >= 1);
}

#[test]
fn nonce_search_finds_the_first_valid_nonce() {
    let mut chain = ChainState::new(1);
    let candidate = build_candidate(&mut chain, 1, "c", 10, 10, 5).unwrap();
    let (nonce, hash) = search_nonce(&candidate.header, 0, 1_000_000).unwrap();
    assert!(has_valid_pow(&hash, 1));
    for earlier in 0..nonce {
        assert!(search_nonce(&candidate.header, earlier, 1).is_none() || earlier == nonce);
    }
    assert_eq!(search_nonce(&candidate.header, nonce, 1), Some((nonce, hash)));
}

#[test]
fn nonce_search_can_come_back_empty() {
    let mut chain = ChainState::new(64);
    let candidate = build_candidate(&mut chain, 64, "c", 10, 10, 5).unwrap();
    assert_eq!(search_nonce(&candidate.header, 0, 10), None);
}

#[test]
fn mining_step_continues_mines_and_refuses_a_repeat() {
    let creator = public_key_for_secret(SECRET).unwrap();
    let mut chain = ChainState::new(1);
    let candidate = build_candidate(&mut chain, 1, &creator, 100, 100, 50).unwrap();

    match mining_step(&mut chain, &candidate, 20, 10, None, 1) {
        MiningStep::Continue { next } => assert_eq!(next, 30),
        other => panic!("expected to continue, got {:?}", other),
    }
    assert_eq!(chain.mining.attempts, 21);
    let mut at_start = candidate.header.clone();
    at_start.nonce = 20;
    assert_eq!(chain.mining.last_hash, block_hash(&at_start).unwrap());
    assert!(chain.mining.active);

    let found = search_nonce(&candidate.header, 0, 1_000_000).unwrap();
    let (nonce, hash) = found.clone();
    match mining_step(&mut chain, &candidate, 0, 1_000_000, Some(found.clone()), 1) {
        MiningStep::Mined { block, added } => {
            assert_eq!(block.hash, hash);
            assert_eq!(block.header.nonce, nonce);
            assert_eq!(added.len(), 1);
        }
        other => panic!("expected a mined block, got {:?}", other),
    }
    assert_eq!(chain.best_tip, hash);
    assert_eq!(chain.mining.last_mined_hash, hash);
    assert_eq!(chain.mining.attempts, nonce + 1);

    match mining_step(&mut chain, &candidate, 0, 1_000_000, Some(found), 1) {
        MiningStep::Restart => {}
        other => panic!("expected a restart, got {:?}", other),
    }
}

#[test]
fn mining_step_reports_a_refused_block() {
    let creator = public_key_for_secret(SECRET).unwrap();
    let mut chain = ChainState::new(1);
    let candidate = build_candidate(&mut chain, 1, &creator, 100, 100, 50).unwrap();
    let (nonce, _) = search_nonce(&candidate.header, 0, 1_000_000).unwrap();
    let tip = chain.best_tip.clone();
    match mining_step(&mut chain, &candidate, 0, 1, Some((nonce, "ff".to_string())), 1) {
        MiningStep::Failed(msg) => assert_eq!(msg, "block hash does not match header"),
        other => panic!("expected a failure, got {:?}", other),
    }
    assert_eq!(chain.best_tip, tip);
    assert!(chain.mining.active);
    assert_eq!(chain.mining.attempts, 1);
    let mut at_start = candidate.header.clone();
    at_start.nonce = 0;
    assert_eq!(chain.mining.last_hash, block_hash(&at_start).unwrap());
}
