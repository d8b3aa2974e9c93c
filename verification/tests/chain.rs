use peer_ledger::block::{block_hash, genesis_block, has_valid_pow, merkle_root, proof_target, validate_basic_block};
use peer_ledger::chain::{
    add_block, add_transaction_to_mempool, balances_for_best, best_block, better_tip, canonical_blocks,
    canonical_hashes, canonical_tx_ids, chain_status, orphan_count, prune_mempool, select_mempool_transactions,
    BlockAddStatus, ChainState,
};
use peer_ledger::crypto::public_key_for_secret;
use peer_ledger::events::{block_outcome_events, tip_switch_is_reorg};
use peer_ledger::mining::{build_candidate, search_nonce};
use peer_ledger::models::{Block, BlockHeader, StoredBlock, Wallet};
use peer_ledger::transaction::create_signed_transaction;

const DIFFICULTY: u32 = 1;
const SECRET: &str = "9d61b19deffd5a60ba844af492ec2cc44449c5697b326919703bac031cae7f60";
const OTHER_SECRET: &str = "4ccd089b28ff96da9db6c346ec114e0f5b8a319f35aba624da8cf6ed4fb8a6fb";

fn wallet(secret: &str) -> Wallet {
    Wallet { public_key: public_key_for_secret(secret).unwrap(), secret_key: secret.to_string() }
}

fn mine_on(chain: &mut ChainState, creator: &str, now: u64, max_txs: usize) -> Block {
    let candidate = build_candidate(chain, DIFFICULTY, creator, now, now, max_txs).unwrap();
    let (nonce, hash) = search_nonce(&candidate.header, 0, 1_000_000).unwrap();
    let mut header = candidate.header.clone();
    header.nonce = nonce;
    Block { header, hash, transactions: candidate.transactions }
}

fn mine_and_add(chain: &mut ChainState, creator: &str, now: u64) -> Block {
    let block = mine_on(chain, creator, now, 50);
    let outcome = add_block(chain, block.clone(), DIFFICULTY).unwrap();
    assert_eq!(outcome.status, BlockAddStatus::Added);
    block
}

fn stored(height: u64, total: u64, timestamp: u64, hash: &str) -> StoredBlock {
    let header = BlockHeader {
        height,
        previous_hash: "0".to_string(),
        timestamp,
        nonce: 0,
        difficulty: 0,
        creator: "c".to_string(),
        merkle_root: "m".to_string(),
        tx_count: 0,
    };
    StoredBlock { block: Block { header, hash: hash.to_string(), transactions: Vec::new() }, height, total_transactions: total }
}

#[test]
fn new_chain_holds_only_genesis() {
    let chain = ChainState::new(DIFFICULTY);
    let genesis = genesis_block(DIFFICULTY);
    assert_eq!(chain.best_tip, genesis.hash);
    assert_eq!(canonical_hashes(&chain), vec![genesis.hash.clone()]);
    assert_eq!(best_block(&chain).unwrap().height, 0);
    let status = chain_status(&chain);
    assert_eq!(status.height, 0);
    assert_eq!(status.known_blocks, 1);
    assert_eq!(status.orphans, 0);
    assert_eq!(status.mempool, 0);
    assert_eq!(status.tip, genesis.hash);
}

#[test]
fn genesis_block_is_fixed() {
    let genesis = genesis_block(4);
    assert_eq!(genesis.header.previous_hash, "0");
    assert_eq!(genesis.header.creator, "genesis");
    assert_eq!(genesis.header.timestamp, 0);
    assert_eq!(genesis.header.merkle_root, merkle_root(&[]).unwrap());
    assert_eq!(genesis.hash, block_hash(&genesis.header).unwrap());
    assert_eq!(genesis_block(4).hash, genesis.hash);
    assert_ne!(genesis_block(3).hash, genesis.hash);
}

#[test]
fn empty_merkle_root_is_hash_of_empty_text() {
    assert_eq!(
        merkle_root(&[]).unwrap(),
        "e3b0c44298fc1c149afbf4c8996fb92427ae41e4649b934ca495991b7852b855"
    );
}

#[test]
fn proof_of_work_counts_leading_zeros() {
    assert_eq!(proof_target(3), "000");
    assert_eq!(proof_target(0), "");
    assert!(has_valid_pow("000abc", 3));
    assert!(!has_valid_pow("00abc", 3));
    assert!(has_valid_pow("abc", 0));
}

#[test]
fn mined_block_extends_the_chain_and_pays_the_creator() {
    let miner = wallet(SECRET);
    let mut chain = ChainState::new(DIFFICULTY);
    let genesis_hash = chain.best_tip.clone();
    let block = mine_and_add(&mut chain, &miner.public_key, 1000);
    assert_eq!(chain.best_tip, block.hash);
    assert_eq!(canonical_hashes(&chain), vec![genesis_hash, block.hash.clone()]);
    assert_eq!(canonical_blocks(&chain).len(), 2);
    assert_eq!(balances_for_best(&chain).get(&miner.public_key), 1);
    assert_eq!(best_block(&chain).unwrap().height, 1);
    assert_eq!(best_block(&chain).unwrap().total_transactions, 1);
    assert!(canonical_tx_ids(&chain).contains(&block.transactions[0].id));
}

#[test]
fn supply_is_one_reward_per_block() {
    let miner = wallet(SECRET);
    let mut chain = ChainState::new(DIFFICULTY);
    for i in 0..4u64 {
        mine_and_add(&mut chain, &miner.public_key, 1000 + i);
    }
    let height = best_block(&chain).unwrap().height;
    let total: u64 = balances_for_best(&chain).to_pairs().iter().map(|(_, amount)| *amount).sum();
    assert_eq!(height, 4);
    assert_eq!(total, height);
}

#[test]
fn canonical_chain_links_each_block_to_its_parent() {
    let miner = wallet(SECRET);
    let mut chain = ChainState::new(DIFFICULTY);
    for i in 0..3u64 {
        mine_and_add(&mut chain, &miner.public_key, 1000 + i);
    }
    let hashes = canonical_hashes(&chain);
    assert_eq!(hashes.len(), 4);
    assert_eq!(hashes.last().unwrap(), &chain.best_tip);
    for k in 1..hashes.len() {
        let child = chain.blocks.get(&hashes[k]).unwrap();
        assert_eq!(child.height, k as u64);
        assert_eq!(child.block.header.previous_hash, hashes[k - 1]);
    }
}

#[test]
fn duplicate_block_changes_nothing() {
    let miner = wallet(SECRET);
    let mut chain = ChainState::new(DIFFICULTY);
    let block = mine_and_add(&mut chain, &miner.public_key, 1000);
    let outcome = add_block(&mut chain, block.clone(), DIFFICULTY).unwrap();
    assert_eq!(outcome.status, BlockAddStatus::Duplicate);
    assert!(outcome.added_blocks.is_empty());
    assert_eq!(outcome.old_tip, outcome.new_tip);
    assert_eq!(chain.blocks.len(), 2);
}

#[test]
fn orphan_waits_for_its_parent_then_connects() {
    let miner = wallet(SECRET);
    let mut source = ChainState::new(DIFFICULTY);
    let parent = mine_and_add(&mut source, &miner.public_key, 1000);
    let child = mine_and_add(&mut source, &miner.public_key, 2000);

    let mut chain = ChainState::new(DIFFICULTY);
    let outcome = add_block(&mut chain, child.clone(), DIFFICULTY).unwrap();
    assert_eq!(outcome.status, BlockAddStatus::Orphan);
    assert_eq!(orphan_count(&chain), 1);
    assert_eq!(chain_status(&chain).orphans, 1);

    let outcome = add_block(&mut chain, parent.clone(), DIFFICULTY).unwrap();
    assert_eq!(outcome.status, BlockAddStatus::Added);
    assert_eq!(outcome.added_blocks.len(), 2);
    assert_eq!(outcome.added_blocks[0].hash, parent.hash);
    assert_eq!(outcome.added_blocks[1].hash, child.hash);
    assert_eq!(orphan_count(&chain), 0);
    assert_eq!(chain.best_tip, child.hash);
    let events = block_outcome_events(&chain, &outcome);
    assert_eq!(events.len(), 3);
    assert_eq!(events[0].0, "block");
    assert!(events[0].1.starts_with("added height=1 hash="));
    assert!(events[1].1.starts_with("added height=2 hash="));
    assert_eq!(events[2].0, "chain");
    assert!(events[2].1.starts_with("reorg old="));
    assert!(events[2].1.contains(" height=0 new="));
    assert!(events[2].1.ends_with(" height=2"));
}

#[test]
fn rejects_block_with_wrong_hash_difficulty_or_root() {
    let miner = wallet(SECRET);
    let mut chain = ChainState::new(DIFFICULTY);
    let block = mine_on(&mut chain, &miner.public_key, 1000, 50);

    let mut wrong_hash = block.clone();
    wrong_hash.hash = "0".repeat(64);
    assert_eq!(add_block(&mut chain, wrong_hash, DIFFICULTY).unwrap_err(), "block hash does not match header");

    assert_eq!(
        add_block(&mut chain, block.clone(), DIFFICULTY + 1).unwrap_err(),
        "block difficulty does not match this node"
    );

    let mut bad_root = block.clone();
    bad_root.header.merkle_root = "00".to_string();
    let (nonce, hash) = search_nonce(&bad_root.header, 0, 1_000_000).unwrap();
    bad_root.header.nonce = nonce;
    bad_root.hash = hash;
    assert_eq!(
        validate_basic_block(&bad_root, DIFFICULTY).unwrap_err(),
        "block Merkle root does not match transactions"
    );
    assert_eq!(chain.blocks.len(), 1);
}

#[test]
fn fork_choice_prefers_height_then_transactions_then_time_then_hash() {
    assert!(better_tip(&stored(2, 0, 0, "b"), &stored(1, 9, 9, "a")));
    assert!(!better_tip(&stored(1, 9, 9, "a"), &stored(2, 0, 0, "b")));
    assert!(better_tip(&stored(1, 3, 0, "b"), &stored(1, 2, 9, "a")));
    assert!(better_tip(&stored(1, 3, 5, "b"), &stored(1, 3, 4, "a")));
    assert!(better_tip(&stored(1, 3, 5, "a"), &stored(1, 3, 5, "b")));
    assert!(!better_tip(&stored(1, 3, 5, "b"), &stored(1, 3, 5, "a")));
    assert!(!better_tip(&stored(1, 3, 5, "a"), &stored(1, 3, 5, "a")));
}

#[test]
fn longer_branch_wins_and_is_reported_as_reorg() {
    let miner = wallet(SECRET);
    let other = wallet(OTHER_SECRET);
    let mut left = ChainState::new(DIFFICULTY);
    let mut right = ChainState::new(DIFFICULTY);
    let a1 = mine_and_add(&mut left, &miner.public_key, 1000);
    let b1 = mine_and_add(&mut right, &other.public_key, 1001);
    let b2 = mine_and_add(&mut right, &other.public_key, 1002);

    add_block(&mut left, b1.clone(), DIFFICULTY).unwrap();
    let outcome = add_block(&mut left, b2.clone(), DIFFICULTY).unwrap();
    assert_eq!(outcome.status, BlockAddStatus::Added);
    assert_eq!(outcome.new_tip, b2.hash);
    assert!(canonical_hashes(&left).contains(&b1.hash));
    assert!(!canonical_hashes(&left).contains(&a1.hash));
    assert_eq!(balances_for_best(&left).get(&miner.public_key), 0);
    assert_eq!(balances_for_best(&left).get(&other.public_key), 2);
    assert!(left.blocks.contains_key(&a1.hash));
    assert!(!tip_switch_is_reorg(&left, &outcome));
}

#[test]
fn signed_transfer_enters_mempool_once_and_is_mined() {
    let miner = wallet(SECRET);
    let friend = wallet(OTHER_SECRET);
    let mut chain = ChainState::new(DIFFICULTY);
    mine_and_add(&mut chain, &miner.public_key, 1000);
    let tx = create_signed_transaction(&miner, friend.public_key.clone(), 1, "hi".to_string()).unwrap();
    assert_eq!(add_transaction_to_mempool(&mut chain, tx.clone()), Ok(true));
    assert_eq!(add_transaction_to_mempool(&mut chain, tx.clone()), Ok(false));
    let parent = best_block(&chain).unwrap().clone();
    let selected = select_mempool_transactions(&chain, &parent, 10);
    assert_eq!(selected.len(), 1);
    assert_eq!(selected[0].id, tx.id);
    let block = mine_on(&mut chain, &miner.public_key, 2000, 10);
    assert_eq!(block.transactions.len(), 2);
    add_block(&mut chain, block, DIFFICULTY).unwrap();
    assert_eq!(chain.mempool.len(), 0);
    assert_eq!(balances_for_best(&chain).get(&friend.public_key), 1);
    assert_eq!(balances_for_best(&chain).get(&miner.public_key), 1);
    assert_eq!(add_transaction_to_mempool(&mut chain, tx), Ok(false));
}

#[test]
fn transfer_beyond_balance_is_not_selected() {
    let miner = wallet(SECRET);
    let friend = wallet(OTHER_SECRET);
    let mut chain = ChainState::new(DIFFICULTY);
    mine_and_add(&mut chain, &miner.public_key, 1000);
    let tx = create_signed_transaction(&miner, friend.public_key.clone(), 5, String::new()).unwrap();
    assert_eq!(add_transaction_to_mempool(&mut chain, tx), Ok(true));
    let parent = best_block(&chain).unwrap().clone();
    assert!(select_mempool_transactions(&chain, &parent, 10).is_empty());
    prune_mempool(&mut chain);
    assert_eq!(chain.mempool.len(), 1);
}

#[test]
fn mempool_rejects_forged_transfers() {
    let miner = wallet(SECRET);
    let friend = wallet(OTHER_SECRET);
    let mut chain = ChainState::new(DIFFICULTY);
    let mut tx = create_signed_transaction(&miner, friend.public_key.clone(), 1, String::new()).unwrap();
    tx.payload.amount = 2;
    assert_eq!(
        add_transaction_to_mempool(&mut chain, tx).unwrap_err(),
        "transaction id does not match payload and signature"
    );
    assert_eq!(chain.mempool.len(), 0);
}

#[test]
fn selected_tip_is_the_best_stored_block() {
    let miner = wallet(SECRET);
    let other = wallet(OTHER_SECRET);
    let mut left = ChainState::new(DIFFICULTY);
    let mut right = ChainState::new(DIFFICULTY);
    mine_and_add(&mut left, &miner.public_key, 1000);
    mine_and_add(&mut left, &miner.public_key, 1001);
    let r1 = mine_and_add(&mut right, &other.public_key, 1500);
    let r2 = mine_and_add(&mut right, &other.public_key, 1501);
    let r3 = mine_and_add(&mut right, &other.public_key, 1502);
    for block in [r3, r1, r2] {
        add_block(&mut left, block, DIFFICULTY).unwrap();
        let best = best_block(&left).unwrap().clone();
        for stored in left.blocks.values() {
            assert!(!better_tip(stored, &best));
        }
    }
    assert_eq!(best_block(&left).unwrap().height, 3);
}

#[test]
fn repeated_orphan_waits_once_and_siblings_share_a_list() {
    let miner = wallet(SECRET);
    let other = wallet(OTHER_SECRET);
    let mut source = ChainState::new(DIFFICULTY);
    let parent = mine_and_add(&mut source, &miner.public_key, 1000);
    let mut fork = ChainState::new(DIFFICULTY);
    assert_eq!(add_block(&mut fork, parent.clone(), DIFFICULTY).unwrap().status, BlockAddStatus::Added);
    let child_a = mine_and_add(&mut source, &miner.public_key, 2000);
    let child_b = mine_and_add(&mut fork, &other.public_key, 2500);

    let mut chain = ChainState::new(DIFFICULTY);
    assert_eq!(add_block(&mut chain, child_a.clone(), DIFFICULTY).unwrap().status, BlockAddStatus::Orphan);
    assert_eq!(add_block(&mut chain, child_a.clone(), DIFFICULTY).unwrap().status, BlockAddStatus::Orphan);
    assert_eq!(orphan_count(&chain), 1);
    assert_eq!(add_block(&mut chain, child_b.clone(), DIFFICULTY).unwrap().status, BlockAddStatus::Orphan);
    assert_eq!(orphan_count(&chain), 2);
    assert_eq!(chain.orphan_blocks.len(), 1);
    let waiting: Vec<_> = chain.orphan_blocks.get(&parent.hash).unwrap().iter().map(|b| b.hash.clone()).collect();
    assert_eq!(waiting, vec![child_a.hash.clone(), child_b.hash.clone()]);

    let outcome = add_block(&mut chain, parent.clone(), DIFFICULTY).unwrap();
    assert_eq!(outcome.added_blocks.len(), 3);
    assert_eq!(orphan_count(&chain), 0);
}

#[test]
fn waiting_orphan_that_fails_is_listed_as_rejected() {
    let miner = wallet(SECRET);
    let mut source = ChainState::new(DIFFICULTY);
    let parent = mine_and_add(&mut source, &miner.public_key, 1000);
    let candidate = build_candidate(&mut source, DIFFICULTY, &miner.public_key, 2000, 2000, 50).unwrap();
    let mut header = candidate.header.clone();
    header.height = 7;
    let (nonce, hash) = search_nonce(&header, 0, 1_000_000).unwrap();
    header.nonce = nonce;
    let bad = Block { header, hash, transactions: candidate.transactions };

    let mut chain = ChainState::new(DIFFICULTY);
    assert_eq!(add_block(&mut chain, bad.clone(), DIFFICULTY).unwrap().status, BlockAddStatus::Orphan);
    let outcome = add_block(&mut chain, parent.clone(), DIFFICULTY).unwrap();
    assert_eq!(outcome.status, BlockAddStatus::Added);
    assert_eq!(outcome.added_blocks.len(), 1);
    assert_eq!(outcome.rejected_orphans, vec![(bad.hash.clone(), "block height does not extend parent".to_string())]);
    assert_eq!(orphan_count(&chain), 0);
    assert_eq!(chain.best_tip, parent.hash);
}

#[test]
fn balances_are_credits_less_transfers_sent_along_the_canonical_chain() {
    let miner = wallet(SECRET);
    let friend = wallet(OTHER_SECRET);
    let mut chain = ChainState::new(DIFFICULTY);
    mine_and_add(&mut chain, &miner.public_key, 1000);
    mine_and_add(&mut chain, &miner.public_key, 2000);
    let tx = create_signed_transaction(&miner, friend.public_key.clone(), 2, "two".to_string()).unwrap();
    assert_eq!(add_transaction_to_mempool(&mut chain, tx), Ok(true));
    mine_and_add(&mut chain, &friend.public_key, 3000);
    let back = create_signed_transaction(&friend, miner.public_key.clone(), 1, "one".to_string()).unwrap();
    assert_eq!(add_transaction_to_mempool(&mut chain, back), Ok(true));
    mine_and_add(&mut chain, &miner.public_key, 4000);
    let balances = balances_for_best(&chain);
    for account in [&miner.public_key, &friend.public_key] {
        let mut credited: u64 = 0;
        let mut debited: u64 = 0;
        for block in canonical_blocks(&chain) {
            for t in &block.transactions {
                let reward = t.payload.from == "0" && t.signature.is_empty();
                if &t.payload.to == account {
                    credited += t.payload.amount;
                }
                if !reward && &t.payload.from == account {
                    debited += t.payload.amount;
                }
            }
        }
        assert_eq!(balances.get(account), credited - debited);
    }
    assert_eq!(balances.get(&miner.public_key), 2);
    assert_eq!(balances.get(&friend.public_key), 2);
}

#[test]
fn mempool_refuses_a_bad_signature_with_the_validator_message() {
    let miner = wallet(SECRET);
    let friend = wallet(OTHER_SECRET);
    let mut chain = ChainState::new(DIFFICULTY);
    let mut tx = create_signed_transaction(&miner, friend.public_key.clone(), 1, String::new()).unwrap();
    tx.signature = peer_ledger::crypto::sign_hex(SECRET, "something else").unwrap();
    tx.id = peer_ledger::transaction::transaction_id(&tx.payload, &tx.signature).unwrap();
    let expected = peer_ledger::transaction::validate_normal_transaction(&tx).unwrap_err();
    assert_eq!(expected, "invalid signature: signature error: Verification equation was not satisfied");
    assert_eq!(add_transaction_to_mempool(&mut chain, tx).unwrap_err(), expected);
    assert_eq!(chain.mempool.len(), 0);
}
