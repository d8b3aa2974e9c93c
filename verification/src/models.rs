//! The ledger's data records: wallets, transfers, blocks and stored blocks.
use vstd::prelude::*;

verus! {

/// Coins paid to the creator of every mined block.
pub const BLOCK_REWARD: u64 = 1;

/// Number of recent events a node keeps in memory.
pub const EVENT_LIMIT: usize = 200;

/// A wallet as it is written to disk.
#[derive(Debug)]
pub struct WalletFile {
    pub public_key: String,
    pub secret_key: String,
}

/// A node's Ed25519 key pair, both halves hex encoded.
#[derive(Debug)]
pub struct Wallet {
    pub public_key: String,
    pub secret_key: String,
}

/// What the sender of a transfer signs.
#[derive(Debug)]
pub struct TransactionPayload {
    pub from: String,
    pub to: String,
    pub amount: u64,
    pub timestamp: u64,
    pub memo: String,
}

/// A transfer together with its signature and content id.
#[derive(Debug)]
pub struct SignedTransaction {
    pub id: String,
    pub payload: TransactionPayload,
    pub signature: String,
}

/// The hashed part of a block.
#[derive(Debug)]
pub struct BlockHeader {
    pub height: u64,
    pub previous_hash: String,
    pub timestamp: u64,
    pub nonce: u64,
    pub difficulty: u32,
    pub creator: String,
    pub merkle_root: String,
    pub tx_count: usize,
}

/// A block: header, the hash of the header, and the transactions.
#[derive(Debug)]
pub struct Block {
    pub header: BlockHeader,
    pub hash: String,
    pub transactions: Vec<SignedTransaction>,
}

/// A block accepted into the block store, with its branch totals.
#[derive(Debug)]
pub struct StoredBlock {
    pub block: Block,
    pub height: u64,
    pub total_transactions: u64,
}

/// The state of the current (or last) mining job.
#[derive(Debug)]
pub struct MiningStatus {
    pub active: bool,
    pub current_height: u64,
    pub candidate_parent: String,
    pub attempts: u64,
    pub last_hash: String,
    pub last_mined_hash: String,
    pub started_at_ms: u128,
}

/// The hash of an empty committed ledger.
pub const GENESIS_LEDGER_HASH: &'static str = "genesis";

/// The content of a round-ordered ledger entry, before its id is computed.
#[derive(Clone, Debug)]
pub struct UnsignedTransaction {
    pub origin: String,
    pub seq: u64,
    pub body: String,
}

/// A round-ordered ledger entry: its origin node, the node's sequence number,
/// a text body, and its content id.
#[derive(Debug)]
pub struct Transaction {
    pub id: String,
    pub origin: String,
    pub seq: u64,
    pub body: String,
}

/// What the leader of a round commits: the round, the ledger hash it extends,
/// the leader, the round's members, the members that voted, and the entries.
#[derive(Clone, Debug)]
pub struct CommitPayload {
    pub round: u64,
    pub prev_ledger_hash: String,
    pub leader: String,
    pub members: Vec<String>,
    pub votes: Vec<String>,
    pub txs: Vec<Transaction>,
}

/// A commit payload with its hash, which becomes the new ledger hash.
#[derive(Clone, Debug)]
pub struct Commit {
    pub payload: CommitPayload,
    pub commit_hash: String,
}

/// A member's answer to the leader: its ledger position and pending entries.
#[derive(Clone, Debug)]
pub struct Proposal {
    pub addr: String,
    pub round: u64,
    pub ledger_len: usize,
    pub ledger_hash: String,
    pub pending: Vec<Transaction>,
}

/// One entry of a node's event log.
#[derive(Debug)]
pub struct EventRecord {
    pub time_ms: u128,
    pub kind: String,
    pub message: String,
}

impl Clone for WalletFile {
    fn clone(&self) -> (res: Self)
        ensures
            res == *self,
    {
        WalletFile { public_key: self.public_key.clone(), secret_key: self.secret_key.clone() }
    }
}

impl Clone for Wallet {
    fn clone(&self) -> (res: Self)
        ensures
            res == *self,
    {
        Wallet { public_key: self.public_key.clone(), secret_key: self.secret_key.clone() }
    }
}

impl Clone for TransactionPayload {
    fn clone(&self) -> (res: Self)
        ensures
            res == *self,
    {
        TransactionPayload {
            from: self.from.clone(),
            to: self.to.clone(),
            amount: self.amount,
            timestamp: self.timestamp,
            memo: self.memo.clone(),
        }
    }
}

impl Clone for SignedTransaction {
    fn clone(&self) -> (res: Self)
        ensures
            res == *self,
    {
        SignedTransaction {
            id: self.id.clone(),
            payload: self.payload.clone(),
            signature: self.signature.clone(),
        }
    }
}

impl Clone for BlockHeader {
    fn clone(&self) -> (res: Self)
        ensures
            res == *self,
    {
        BlockHeader {
            height: self.height,
            previous_hash: self.previous_hash.clone(),
            timestamp: self.timestamp,
            nonce: self.nonce,
            difficulty: self.difficulty,
            creator: self.creator.clone(),
            merkle_root: self.merkle_root.clone(),
            tx_count: self.tx_count,
        }
    }
}

/// Copies a list of transactions element by element.
pub fn clone_transactions(txs: &Vec<SignedTransaction>) -> (res: Vec<SignedTransaction>)
    ensures
        res@ == txs@,
{
    let mut res: Vec<SignedTransaction> = Vec::new();
    for i in 0..txs.len()
        invariant
            res@ == txs@.take(i as int),
    {
        res.push(txs[i].clone());
        assert(txs@.take(i + 1) == txs@.take(i as int).push(txs@[i as int]));
    }
    assert(txs@.take(txs.len() as int) == txs@);
    res
}

impl Block {
    /// Two blocks with the same header, hash and transaction list.
    pub open spec fn same_as(self, other: Block) -> bool {
        &&& self.header == other.header
        &&& self.hash == other.hash
        &&& self.transactions@ == other.transactions@
    }
}

impl StoredBlock {
    /// Two stored blocks that agree on the block and on the branch totals.
    pub open spec fn same_as(self, other: StoredBlock) -> bool {
        &&& self.block.same_as(other.block)
        &&& self.height == other.height
        &&& self.total_transactions == other.total_transactions
    }
}

impl Clone for Block {
    fn clone(&self) -> (res: Self)
        ensures
            res.same_as(*self),
    {
        let transactions = clone_transactions(&self.transactions);
        Block { header: self.header.clone(), hash: self.hash.clone(), transactions }
    }
}

impl Clone for StoredBlock {
    fn clone(&self) -> (res: Self)
        ensures
            res.same_as(*self),
    {
        StoredBlock {
            block: self.block.clone(),
            height: self.height,
            total_transactions: self.total_transactions,
        }
    }
}

impl Clone for MiningStatus {
    fn clone(&self) -> (res: Self)
        ensures
            res == *self,
    {
        MiningStatus {
            active: self.active,
            current_height: self.current_height,
            candidate_parent: self.candidate_parent.clone(),
            attempts: self.attempts,
            last_hash: self.last_hash.clone(),
            last_mined_hash: self.last_mined_hash.clone(),
            started_at_ms: self.started_at_ms,
        }
    }
}

impl Clone for EventRecord {
    fn clone(&self) -> (res: Self)
        ensures
            res == *self,
    {
        EventRecord { time_ms: self.time_ms, kind: self.kind.clone(), message: self.message.clone() }
    }
}

impl Clone for Transaction {
    fn clone(&self) -> (res: Self)
        ensures
            res == *self,
    {
        Transaction { id: self.id.clone(), origin: self.origin.clone(), seq: self.seq, body: self.body.clone() }
    }
}

impl PartialEq for Transaction {
    fn eq(&self, other: &Self) -> (res: bool) {
        self.id == other.id && self.origin == other.origin && self.seq == other.seq && self.body == other.body
    }
}

impl vstd::std_specs::cmp::PartialEqSpecImpl for Transaction {
    open spec fn obeys_eq_spec() -> bool {
        true
    }

    open spec fn eq_spec(&self, other: &Self) -> bool {
        self.id@ == other.id@ && self.origin@ == other.origin@ && self.seq == other.seq && self.body@ == other.body@
    }
}

impl Default for MiningStatus {
    fn default() -> (res: Self)
        ensures
            !res.active,
            res.current_height == 0,
            res.candidate_parent@ == Seq::<char>::empty(),
            res.attempts == 0,
            res.last_hash@ == Seq::<char>::empty(),
            res.last_mined_hash@ == Seq::<char>::empty(),
            res.started_at_ms == 0,
    {
        MiningStatus {
            active: false,
            current_height: 0,
            candidate_parent: String::new(),
            attempts: 0,
            last_hash: String::new(),
            last_mined_hash: String::new(),
            started_at_ms: 0,
        }
    }
}

} // verus!
