use peer_ledger::block::{block_hash, merkle_root, validate_basic_block};
use peer_ledger::chain::{add_block, best_block, validate_block_against_parent, BlockAddStatus, ChainState};
use peer_ledger::crypto::{public_key_for_secret, sha256_hex};
use peer_ledger::mining::{build_candidate, search_nonce};
use peer_ledger::models::{Block, BlockHeader, SignedTransaction, Wallet};
use peer_ledger::transaction::{create_signed_transaction, reward_transaction};

const SECRET: &str = "9d61b19deffd5a60ba844af492ec2cc44449c5697b326919703bac031cae7f60";
const OTHER_SECRET: &str = "4ccd089b28ff96da9db6c346ec114e0f5b8a319f35aba624da8cf6ed4fb8a6fb";

fn wallet(secret: &str) -> Wallet {
    Wallet { public_key: public_key_for_secret(secret).unwrap(), secret_key: secret.to_string() }
}

/// A block on the chain's tip with these transactions, with a valid hash.
fn sealed(chain: &mut ChainState, creator: &str, timestamp: u64, transactions: Vec<SignedTransaction>) -> Block {
    let candidate = build_candidate(chain, 1, creator, timestamp, timestamp, 0).unwrap();
    let mut header = candidate.header.clone();
    header.merkle_root = merkle_root(&transactions).unwrap();
    header.tx_count = transactions.len();
    let (nonce, hash) = search_nonce(&header, 0, 1_000_000).unwrap();
    header.nonce = nonce;
    Block { header, hash, transactions }
}

fn with_header(header: BlockHeader, transactions: Vec<SignedTransaction>) -> Block {
    let (nonce, hash) = search_nonce(&header, 0, 1_000_000).unwrap();
    let mut header = header;
    header.nonce = nonce;
    Block { header, hash, transactions }
}

#[test]
fn merkle_root_pairs_ids_and_repeats_the_last() {
    let a = reward_transaction("a", 1).unwrap();
    let b = reward_transaction("b", 2).unwrap();
    let c = reward_transaction("c", 3).unwrap();
    assert_eq!(merkle_root(&[a.clone()]).unwrap(), a.id);
    let ab = sha256_hex(&format!("{}{}", a.id, b.id));
    assert_eq!(merkle_root(&[a.clone(), b.clone()]).unwrap(), ab);
    let cc = sha256_hex(&format!("{}{}", c.id, c.id));
    assert_eq!(merkle_root(&[a, b, c]).unwrap(), sha256_hex(&format!("{ab}{cc}")));
}

#[test]
fn proof_of_work_and_counts_are_checked() {
    let miner = wallet(SECRET);
    let mut chain = ChainState::new(1);
    let reward = reward_transaction(&miner.public_key, 50).unwrap();
    let block = sealed(&mut chain, &miner.public_key, 50, vec![reward.clone()]);

    let mut lazy = block.clone();
    let mut nonce = 0u64;
    loop {
        lazy.header.nonce = nonce;
        let hash = block_hash(&lazy.header).unwrap();
        if !hash.starts_with('0') {
            lazy.hash = hash;
            break;
        }
        nonce += 1;
    }
    assert_eq!(validate_basic_block(&lazy, 1).unwrap_err(), "invalid proof of work");

    let mut header = block.header.clone();
    header.tx_count = 2;
    let miscounted = with_header(header, vec![reward.clone()]);
    assert_eq!(
        validate_basic_block(&miscounted, 1).unwrap_err(),
        "block transaction count does not match header"
    );

    let mut header = block.header.clone();
    header.timestamp = 0;
    let timeless = with_header(header, vec![reward]);
    assert_eq!(validate_basic_block(&timeless, 1).unwrap_err(), "non-genesis block timestamp must be nonzero");
    assert_eq!(validate_basic_block(&block, 1), Ok(()));
}

#[test]
fn parent_link_and_height_are_checked() {
    let miner = wallet(SECRET);
    let mut chain = ChainState::new(1);
    let parent = best_block(&chain).unwrap().clone();
    let reward = reward_transaction(&miner.public_key, 50).unwrap();
    let block = sealed(&mut chain, &miner.public_key, 50, vec![reward.clone()]);
    assert_eq!(validate_block_against_parent(&block, &parent, &chain, 1), Ok(()));

    let mut header = block.header.clone();
    header.previous_hash = "elsewhere".to_string();
    let lost = with_header(header, vec![reward.clone()]);
    assert_eq!(
        validate_block_against_parent(&lost, &parent, &chain, 1).unwrap_err(),
        "block parent hash does not match parent"
    );

    let mut header = block.header.clone();
    header.height = 5;
    let jumped = with_header(header, vec![reward]);
    assert_eq!(add_block(&mut chain, jumped, 1).unwrap_err(), "block height does not extend parent");
}

#[test]
fn reward_rules_inside_blocks() {
    let miner = wallet(SECRET);
    let mut chain = ChainState::new(1);

    let empty = sealed(&mut chain, &miner.public_key, 50, Vec::new());
    assert_eq!(add_block(&mut chain, empty, 1).unwrap_err(), "block must contain one reward transaction");

    let wrong_creator = reward_transaction("someone else", 50).unwrap();
    let stolen = sealed(&mut chain, &miner.public_key, 50, vec![wrong_creator]);
    assert_eq!(add_block(&mut chain, stolen, 1).unwrap_err(), "reward recipient must match block creator");

    let r1 = reward_transaction(&miner.public_key, 50).unwrap();
    let r2 = reward_transaction(&miner.public_key, 51).unwrap();
    let double = sealed(&mut chain, &miner.public_key, 50, vec![r1.clone(), r2]);
    assert_eq!(add_block(&mut chain, double, 1).unwrap_err(), "reward transaction must be first");

    let again = sealed(&mut chain, &miner.public_key, 50, vec![r1.clone(), r1.clone()]);
    assert_eq!(add_block(&mut chain, again, 1).unwrap_err(), "reward transaction must be first");
    assert_eq!(chain.blocks.len(), 1);
}

#[test]
fn transfers_inside_blocks_are_checked() {
    let miner = wallet(SECRET);
    let friend = wallet(OTHER_SECRET);
    let mut chain = ChainState::new(1);
    let first = sealed(&mut chain, &miner.public_key, 50, vec![reward_transaction(&miner.public_key, 50).unwrap()]);
    assert_eq!(add_block(&mut chain, first, 1).unwrap().status, BlockAddStatus::Added);

    let no_reward = sealed(
        &mut chain,
        &miner.public_key,
        60,
        vec![create_signed_transaction(&miner, friend.public_key.clone(), 1, String::new()).unwrap()],
    );
    assert_eq!(
        add_block(&mut chain, no_reward, 1).unwrap_err(),
        "block must contain exactly one reward transaction"
    );

    let reward = reward_transaction(&miner.public_key, 60).unwrap();
    let too_much = create_signed_transaction(&miner, friend.public_key.clone(), 3, String::new()).unwrap();
    let overdrawn = sealed(&mut chain, &miner.public_key, 60, vec![reward.clone(), too_much]);
    assert_eq!(add_block(&mut chain, overdrawn, 1).unwrap_err(), "sender balance is insufficient");

    let pay = create_signed_transaction(&miner, friend.public_key.clone(), 1, String::new()).unwrap();
    let twice = sealed(&mut chain, &miner.public_key, 60, vec![reward.clone(), pay.clone(), pay.clone()]);
    assert_eq!(add_block(&mut chain, twice, 1).unwrap_err(), "duplicate transaction id in branch");

    let good = sealed(&mut chain, &miner.public_key, 60, vec![reward, pay.clone()]);
    assert_eq!(add_block(&mut chain, good, 1).unwrap().status, BlockAddStatus::Added);

    let reward3 = reward_transaction(&miner.public_key, 70).unwrap();
    let replayed = sealed(&mut chain, &miner.public_key, 70, vec![reward3, pay]);
    assert_eq!(add_block(&mut chain, replayed, 1).unwrap_err(), "duplicate transaction id in branch");
}
