use std::collections::VecDeque;

use peer_ledger::chain::{BlockAddOutcome, BlockAddStatus, ChainState};
use peer_ledger::events::{
    block_outcome_events, discovered_message, orphan_message, push_recent_event, rejected_message, tx_event_message,
};
use peer_ledger::mining::{mined_message, progress_message, restart_message};
use peer_ledger::models::{Block, BlockHeader, EventRecord, SignedTransaction, TransactionPayload, EVENT_LIMIT};

#[test]
fn transfer_message_shortens_keys() {
    let tx = SignedTransaction {
        id: "0123456789".to_string(),
        payload: TransactionPayload {
            from: "abcdefghij".to_string(),
            to: "xyz".to_string(),
            amount: 42,
            timestamp: 0,
            memo: String::new(),
        },
        signature: String::new(),
    };
    assert_eq!(tx_event_message("accepted", &tx), "accepted id=01234567 from=abcdefgh to=xyz amount=42");
}

#[test]
fn mining_messages() {
    assert_eq!(restart_message("aaaaaaaaaa", "bb"), "restart parent_changed old=aaaaaaaa new=bb");
    assert_eq!(progress_message(3, 100001, "0123456789"), "progress height=3 attempts=100001 last=01234567");
    assert_eq!(mined_message(4, "abc", 9), "mined height=4 hash=abc attempts=9");
}

#[test]
fn duplicate_and_orphan_outcomes_log_nothing() {
    let chain = ChainState::new(1);
    let outcome = BlockAddOutcome {
        status: BlockAddStatus::Orphan,
        added_blocks: Vec::new(),
        rejected_orphans: vec![("h".to_string(), "e".to_string())],
        old_tip: chain.best_tip.clone(),
        new_tip: chain.best_tip.clone(),
    };
    assert!(block_outcome_events(&chain, &outcome).is_empty());
}

#[test]
fn rejected_orphans_are_logged() {
    let chain = ChainState::new(1);
    let outcome = BlockAddOutcome {
        status: BlockAddStatus::Added,
        added_blocks: Vec::new(),
        rejected_orphans: vec![("0123456789".to_string(), "bad block".to_string())],
        old_tip: chain.best_tip.clone(),
        new_tip: chain.best_tip.clone(),
    };
    let events = block_outcome_events(&chain, &outcome);
    assert_eq!(events, vec![("block".to_string(), "rejected orphan=01234567 reason=\"bad block\"".to_string())]);
}

#[test]
fn recent_events_keep_the_newest() {
    let mut events: VecDeque<EventRecord> = VecDeque::new();
    for i in 0..(EVENT_LIMIT as u128 + 5) {
        push_recent_event(&mut events, EventRecord { time_ms: i, kind: "k".to_string(), message: String::new() });
    }
    assert_eq!(events.len(), EVENT_LIMIT);
    assert_eq!(events[0].time_ms, 5);
    assert_eq!(events[EVENT_LIMIT - 1].time_ms, EVENT_LIMIT as u128 + 4);
}

#[test]
fn orphan_and_rejection_messages() {
    let block = Block {
        header: BlockHeader {
            height: 2,
            previous_hash: "fedcba9876543210".to_string(),
            timestamp: 1,
            nonce: 0,
            difficulty: 0,
            creator: String::new(),
            merkle_root: String::new(),
            tx_count: 0,
        },
        hash: "0123456789abcdef".to_string(),
        transactions: Vec::new(),
    };
    assert_eq!(orphan_message(&block), "orphan hash=01234567 waiting_for=fedcba98");
    assert_eq!(rejected_message("invalid proof of work"), "rejected reason=\"invalid proof of work\"");
}

#[test]
fn discovered_peer_message() {
    assert_eq!(discovered_message("127.0.0.1:9003"), "discovered 127.0.0.1:9003");
}
