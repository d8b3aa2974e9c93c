//! Mining: assembling a candidate block on the selected tip, searching for a
//! nonce that meets the proof of work, and the mining log messages.
use vstd::prelude::*;

use crate::block::{
    basic_block_error, block_hash, has_valid_pow, merkle_root, spec_block_hash, spec_merkle_root, spec_valid_pow,
};
use crate::chain::{
    add_block, best_block, extend_outcome, lemma_wf_frame, lemma_wf_keys, select_mempool_transactions, spec_selection,
    BlockAddStatus, ChainState,
};
use crate::replay::{result_agrees, Replay};
use crate::crypto::{now_millis, short_hash};
use crate::events::short;
use crate::models::{clone_transactions, Block, BlockHeader, SignedTransaction, StoredBlock};
use crate::text::{concat, decimal, owned, push_decimal, push_str};
use crate::transaction::{id_matches, reward_transaction, spec_reward_payload};

verus! {

/// A block being mined: its parent, its header (nonce still to find) and its
/// transactions, the reward first.
#[derive(Debug)]
pub struct Candidate {
    pub parent: StoredBlock,
    pub header: BlockHeader,
    pub transactions: Vec<SignedTransaction>,
}

/// The timestamp of a new block: the clock, but always after its parent.
pub open spec fn candidate_timestamp(now_ms: u64, parent_timestamp: u64) -> u64 {
    if now_ms > parent_timestamp + 1 { now_ms } else { (parent_timestamp + 1) as u64 }
}

/// Everything but the mining job stays as it was.
pub open spec fn same_but_mining(a: ChainState, b: ChainState) -> bool {
    &&& a.blocks == b.blocks
    &&& a.best_tip == b.best_tip
    &&& a.mempool == b.mempool
    &&& a.orphan_blocks == b.orphan_blocks
    &&& a.blocked_peers == b.blocked_peers
    &&& a.balances_cache == b.balances_cache
    &&& a.tx_ids_cache == b.tx_ids_cache
}

/// What a candidate built on the selected tip at `now_ms` holds.
pub open spec fn is_candidate(
    c: Candidate,
    chain: ChainState,
    difficulty: u32,
    creator: Seq<char>,
    now_ms: u64,
    max_txs: nat,
) -> bool {
    let parent = chain.best();
    let ts = candidate_timestamp(now_ms, parent.block.header.timestamp);
    &&& c.parent.same_as(parent)
    &&& c.header.height == parent.height + 1
    &&& c.header.previous_hash == parent.block.hash
    &&& c.header.timestamp == ts
    &&& c.header.nonce == 0
    &&& c.header.difficulty == difficulty
    &&& c.header.creator@ == creator
    &&& c.header.merkle_root@ == spec_merkle_root(c.transactions@)
    &&& c.header.tx_count == c.transactions@.len()
    &&& c.transactions@.len() >= 1
    &&& spec_reward_payload(creator, ts, c.transactions@[0].payload)
    &&& c.transactions@[0].signature@.len() == 0
    &&& id_matches(c.transactions@[0])
    &&& c.transactions@.skip(1) == spec_selection(chain, parent.block.hash@, max_txs)
}

/// Builds a candidate on the selected tip, with the reward to `creator` first
/// and then the mempool transfers the branch accepts, and marks the mining
/// job as started.
pub fn build_candidate(
    chain: &mut ChainState,
    difficulty: u32,
    creator: &str,
    now_ms: u64,
    started_at_ms: u64,
    max_txs: usize,
) -> (res: Result<Candidate, String>)
    requires
        old(chain).wf(),
        old(chain).best().block.header.timestamp < u64::MAX,
        old(chain).best().height < u64::MAX,
    ensures
        final(chain).wf(),
        same_but_mining(*final(chain), *old(chain)),
        res matches Ok(c) && {
            &&& is_candidate(c, *old(chain), difficulty, creator@, now_ms, max_txs as nat)
            &&& final(chain).mining.active
            &&& final(chain).mining.current_height == c.header.height
            &&& final(chain).mining.candidate_parent == c.parent.block.hash
            &&& final(chain).mining.attempts == 0
            &&& final(chain).mining.last_hash@.len() == 0
            &&& final(chain).mining.last_mined_hash == old(chain).mining.last_mined_hash
            &&& final(chain).mining.started_at_ms == started_at_ms as u128
        },
{
    proof {
        lemma_wf_keys(*chain);
    }
    let parent = match best_block(chain) {
        Some(block) => block.clone(),
        None => return Err(owned("best chain tip is missing")),
    };
    let selected = select_mempool_transactions(chain, &parent, max_txs);
    let parent_ts = parent.block.header.timestamp;
    let timestamp = if now_ms > parent_ts + 1 { now_ms } else { parent_ts + 1 };
    let reward = reward_transaction(creator, timestamp)?;
    let mut transactions: Vec<SignedTransaction> = Vec::new();
    transactions.push(reward);
    let mut i: usize = 0;
    while i < selected.len()
        invariant
            i <= selected@.len(),
            transactions@.len() == i + 1,
            transactions@[0] == reward,
            transactions@.skip(1) == selected@.take(i as int),
        decreases selected@.len() - i,
    {
        let ghost before = transactions@;
        transactions.push(selected[i].clone());
        assert(transactions@.skip(1) =~= before.skip(1).push(selected@[i as int]));
        assert(selected@.take(i + 1) =~= selected@.take(i as int).push(selected@[i as int]));
        i = i + 1;
    }
    assert(selected@.take(selected@.len() as int) =~= selected@);
    let root = merkle_root(transactions.as_slice())?;
    let header = BlockHeader {
        height: parent.height + 1,
        previous_hash: parent.block.hash.clone(),
        timestamp,
        nonce: 0,
        difficulty,
        creator: owned(creator),
        merkle_root: root,
        tx_count: transactions.len(),
    };
    chain.mining.active = true;
    chain.mining.current_height = header.height;
    chain.mining.candidate_parent = parent.block.hash.clone();
    chain.mining.attempts = 0;
    chain.mining.last_hash = String::new();
    chain.mining.started_at_ms = started_at_ms as u128;
    proof {
        lemma_wf_frame(*old(chain), *chain);
    }
    Ok(Candidate { parent, header, transactions })
}

/// Builds a candidate at the current time (see `build_candidate`). Whatever the
/// clock says, the timestamp follows the parent's and the rest is as there.
pub fn prepare_candidate(chain: &mut ChainState, difficulty: u32, creator: &str, max_txs: usize) -> (res: Result<
    Candidate,
    String,
>)
    requires
        old(chain).wf(),
        old(chain).best().block.header.timestamp < u64::MAX,
        old(chain).best().height < u64::MAX,
    ensures
        final(chain).wf(),
        same_but_mining(*final(chain), *old(chain)),
        res matches Ok(c) && {
            &&& exists|now_ms: u64| is_candidate(c, *old(chain), difficulty, creator@, now_ms, max_txs as nat)
            &&& c.header.timestamp > old(chain).best().block.header.timestamp
            &&& final(chain).mining.active
            &&& final(chain).mining.current_height == c.header.height
            &&& final(chain).mining.candidate_parent == c.parent.block.hash
            &&& final(chain).mining.attempts == 0
            &&& final(chain).mining.last_hash@.len() == 0
        },
{
    let now_ms = now_millis();
    let started_at_ms = now_millis();
    build_candidate(chain, difficulty, creator, now_ms, started_at_ms, max_txs)
}

/// The header with another nonce.
pub open spec fn with_nonce(header: BlockHeader, nonce: u64) -> BlockHeader {
    BlockHeader { nonce, ..header }
}

/// The nonce `i` steps after `start`, wrapping around.
pub open spec fn nonce_after(start: u64, i: int) -> u64 {
    ((start + i) % 0x1_0000_0000_0000_0000) as u64
}

/// Whether the nonce `i` steps after `start` meets the proof of work.
pub open spec fn pow_at(header: BlockHeader, start: u64, i: int) -> bool {
    spec_valid_pow(spec_block_hash(with_nonce(header, nonce_after(start, i))), header.difficulty as nat)
}

/// Tries `count` nonces from `start` on, in order, and returns the first one
/// whose block hash meets the header's difficulty, with that hash.
pub fn search_nonce(header: &BlockHeader, start: u64, count: u64) -> (res: Option<(u64, String)>)
    ensures
        match res {
            Some((nonce, hash)) => {
                &&& exists|i: int| 0 <= i < count && nonce == nonce_after(start, i) && forall|j: int| 0 <= j < i ==> !pow_at(*header, start, j)
                &&& hash@ == spec_block_hash(with_nonce(*header, nonce))
                &&& spec_valid_pow(hash@, header.difficulty as nat)
            },
            None => forall|j: int| 0 <= j < count ==> !pow_at(*header, start, j),
        },
{
    let mut h = header.clone();
    h.nonce = start;
    assert(nonce_after(start, 0) == start);
    let mut i: u64 = 0;
    while i < count
        invariant
            i <= count,
            h == with_nonce(*header, nonce_after(start, i as int)),
            forall|j: int| 0 <= j < i ==> !pow_at(*header, start, j),
        decreases count - i,
    {
        let hash = match block_hash(&h) {
            Ok(hash) => hash,
            Err(_) => return None,
        };
        if has_valid_pow(&hash, h.difficulty) {
            assert(pow_at(*header, start, i as int));
            return Some((h.nonce, hash));
        }
        assert(!pow_at(*header, start, i as int));
        h.nonce = h.nonce.wrapping_add(1);
        i = i + 1;
        assert(h == with_nonce(*header, nonce_after(start, i as int))) by {
            assert(nonce_after(start, i as int) == if nonce_after(start, i - 1) == u64::MAX {
                0
            } else {
                nonce_after(start, i - 1) + 1
            });
        }
    }
    None
}

/// The log message when mining starts on a candidate.
pub open spec fn spec_start_message(parent_hash: Seq<char>, height: u64, tx_count: nat, difficulty: u32) -> Seq<char> {
    "start parent="@ + short(parent_hash) + " height="@ + decimal(height as nat) + " txs="@ + decimal(tx_count)
        + " difficulty="@ + decimal(difficulty as nat)
}

/// The log message when mining starts on a candidate.
pub fn start_message(candidate: &Candidate) -> (res: String)
    ensures
        res@ == spec_start_message(
            candidate.parent.block.hash@,
            candidate.header.height,
            candidate.transactions@.len(),
            candidate.header.difficulty,
        ),
{
    let mut out = owned("start parent=");
    push_str(&mut out, &short_hash(&candidate.parent.block.hash));
    push_str(&mut out, " height=");
    push_decimal(&mut out, candidate.header.height);
    push_str(&mut out, " txs=");
    push_decimal(&mut out, candidate.transactions.len() as u64);
    push_str(&mut out, " difficulty=");
    push_decimal(&mut out, candidate.header.difficulty as u64);
    out
}

/// The log message when the tip moved away from the candidate's parent.
pub open spec fn spec_restart_message(old_parent: Seq<char>, new_tip: Seq<char>) -> Seq<char> {
    "restart parent_changed old="@ + short(old_parent) + " new="@ + short(new_tip)
}

/// The log message when the tip moved away from the candidate's parent.
pub fn restart_message(old_parent: &str, new_tip: &str) -> (res: String)
    ensures
        res@ == spec_restart_message(old_parent@, new_tip@),
{
    let mut out = owned("restart parent_changed old=");
    push_str(&mut out, &short_hash(old_parent));
    push_str(&mut out, " new=");
    push_str(&mut out, &short_hash(new_tip));
    out
}

/// The log message for mining progress.
pub open spec fn spec_progress_message(height: u64, attempts: u64, last_hash: Seq<char>) -> Seq<char> {
    "progress height="@ + decimal(height as nat) + " attempts="@ + decimal(attempts as nat) + " last="@ + short(
        last_hash,
    )
}

/// The log message for mining progress.
pub fn progress_message(height: u64, attempts: u64, last_hash: &str) -> (res: String)
    ensures
        res@ == spec_progress_message(height, attempts, last_hash@),
{
    let mut out = owned("progress height=");
    push_decimal(&mut out, height);
    push_str(&mut out, " attempts=");
    push_decimal(&mut out, attempts);
    push_str(&mut out, " last=");
    push_str(&mut out, &short_hash(last_hash));
    out
}

/// The log message for a mined block.
pub open spec fn spec_mined_message(height: u64, hash: Seq<char>, attempts: u64) -> Seq<char> {
    "mined height="@ + decimal(height as nat) + " hash="@ + short(hash) + " attempts="@ + decimal(attempts as nat)
}

/// The log message for a mined block.
pub fn mined_message(height: u64, hash: &str, attempts: u64) -> (res: String)
    ensures
        res@ == spec_mined_message(height, hash@, attempts),
{
    let mut out = owned("mined height=");
    push_decimal(&mut out, height);
    push_str(&mut out, " hash=");
    push_str(&mut out, &short_hash(hash));
    push_str(&mut out, " attempts=");
    push_decimal(&mut out, attempts);
    out
}

/// What a mine request asks for: how many blocks (one unless given, and at
/// least one) and at most how many pending transfers each (50 unless given).
pub fn mine_request_counts(blocks: Option<u64>, max_txs: Option<usize>) -> (res: (u64, usize))
    ensures
        res.0 == match blocks {
            Some(b) => if b >= 1 { b } else { 1 },
            None => 1,
        },
        res.1 == match max_txs {
            Some(m) => m,
            None => 50,
        },
{
    let b = match blocks {
        Some(b) => if b >= 1 { b } else { 1 },
        None => 1,
    };
    let m = match max_txs {
        Some(m) => m,
        None => 50,
    };
    (b, m)
}

/// What the miner does after a batch of nonces.
#[derive(Debug)]
pub enum MiningStep {
    /// The tip moved away from the candidate's parent: build a new candidate.
    Restart,
    /// No nonce of the batch met the proof of work: go on from `next`.
    Continue { next: u64 },
    /// The block was found and stored; `added` lists every block it stored.
    Mined { block: Block, added: Vec<Block> },
    /// The block was found but not stored, for this reason.
    Failed(String),
}

/// Everything but the mining job's attempts and last hash stays as it was.
pub open spec fn same_but_progress(a: ChainState, b: ChainState) -> bool {
    &&& same_but_mining(a, b)
    &&& a.mining.active == b.mining.active
    &&& a.mining.current_height == b.mining.current_height
    &&& a.mining.candidate_parent == b.mining.candidate_parent
    &&& a.mining.last_mined_hash == b.mining.last_mined_hash
    &&& a.mining.started_at_ms == b.mining.started_at_ms
}

/// The candidate with a found nonce and its hash, as a block.
pub open spec fn found_block(candidate: Candidate, nonce: u64, hash: String) -> Block {
    Block { header: with_nonce(candidate.header, nonce), hash, transactions: candidate.transactions }
}

/// What storing a found block does, by the store's rules: a block already
/// held fails as a duplicate, stopping the job; a block the store refuses
/// fails with its reason, changing nothing but the job's progress; a block
/// whose parent is unknown waits as an orphan and fails, stopping the job; a
/// block that extends its parent is mined, and the job records its hash.
pub open spec fn found_outcome(
    old: ChainState,
    new: ChainState,
    blk: Block,
    nonce: u64,
    difficulty: u32,
    res: MiningStep,
) -> bool {
    let h = blk.hash@;
    let prev = blk.header.previous_hash@;
    &&& old.knows(h) ==> (res matches MiningStep::Failed(m) && m@ == "mined block was not added: "@ + "duplicate"@
        && !new.mining.active && same_but_mining(old, new))
    &&& !old.knows(h) && basic_block_error(blk, difficulty) is Some ==> (res matches MiningStep::Failed(m) && Some(m@)
        == basic_block_error(blk, difficulty) && same_but_progress(old, new))
    &&& !old.knows(h) && basic_block_error(blk, difficulty) is None && !old.knows(prev) ==> (res matches MiningStep::Failed(
        m,
    ) && m@ == "mined block was not added: "@ + "orphan"@ && !new.mining.active && new.blocks == old.blocks
        && new.best_tip == old.best_tip && new.mempool == old.mempool)
    &&& !old.knows(h) && basic_block_error(blk, difficulty) is None && old.knows(prev) ==> {
        let out = extend_outcome(old, blk, old.stored(prev), difficulty);
        &&& out is Rejected ==> (res matches MiningStep::Failed(m) && result_agrees(Err::<(), String>(m), out) && same_but_progress(
            old,
            new,
        ))
        &&& out is Applied ==> (res matches MiningStep::Mined { block, added } && {
            &&& block.same_as(blk)
            &&& added@.len() >= 1
            &&& added@[0].same_as(blk)
            &&& new.knows(h)
            &&& new.mining.attempts == nonce_after(nonce, 1)
            &&& new.mining.last_hash@ == h
            &&& new.mining.last_mined_hash@ == h
        })
    }
}

/// Two blocks with the same header, hash text and transactions are checked
/// alike.
proof fn lemma_same_content_checks(c: ChainState, a: Block, b: Block, parent: StoredBlock, difficulty: u32)
    requires
        a.header == b.header,
        a.hash@ == b.hash@,
        a.transactions@ == b.transactions@,
    ensures
        basic_block_error(a, difficulty) == basic_block_error(b, difficulty),
        extend_outcome(c, a, parent, difficulty) == extend_outcome(c, b, parent, difficulty),
{
}

/// Adds a found block to the store (see `found_outcome`).
#[verifier::rlimit(60)]
fn store_found_block(chain: &mut ChainState, candidate: &Candidate, n: u64, h: String, difficulty: u32) -> (res: MiningStep)
    requires
        old(chain).wf(),
    ensures
        final(chain).wf(),
        found_outcome(*old(chain), *final(chain), found_block(*candidate, n, h), n, difficulty, res),
{
    let ghost blk = found_block(*candidate, n, h);
    let mut header = candidate.header.clone();
    header.nonce = n;
    let block = Block { header, hash: h.clone(), transactions: clone_transactions(&candidate.transactions) };
    let kept = block.clone();
    proof {
        lemma_same_content_checks(*old(chain), block, blk, old(chain).stored(blk.header.previous_hash@), difficulty);
    }
    match add_block(chain, block, difficulty) {
        Ok(outcome) => {
            if outcome.status == BlockAddStatus::Added {
                let ghost added_state = *chain;
                chain.mining.attempts = n.wrapping_add(1);
                chain.mining.last_hash = h.clone();
                chain.mining.last_mined_hash = h;
                proof {
                    lemma_wf_keys(added_state);
                    lemma_wf_frame(added_state, *chain);
                }
                MiningStep::Mined { block: kept, added: outcome.added_blocks }
            } else {
                let ghost added_state = *chain;
                chain.mining.active = false;
                proof {
                    lemma_wf_keys(added_state);
                    lemma_wf_frame(added_state, *chain);
                }
                MiningStep::Failed(concat("mined block was not added: ", outcome.status.as_str()))
            }
        },
        Err(error) => MiningStep::Failed(error),
    }
}

/// Decides what follows a batch of `batch` nonces tried from `batch_start`,
/// with `found` the first nonce of the batch that met the proof of work and
/// its hash. When the tip is no longer the candidate's parent, the miner
/// restarts and nothing changes. Otherwise the job's progress is the batch's
/// first nonce: its attempts count the nonces up to and including it, and its
/// last hash is the hash there. With nothing found the search goes on after
/// the batch; with a nonce found, the block goes to the store, as
/// `found_outcome` says, and a mined block's own nonce and hash become the
/// job's progress.
pub fn mining_step(
    chain: &mut ChainState,
    candidate: &Candidate,
    batch_start: u64,
    batch: u64,
    found: Option<(u64, String)>,
    difficulty: u32,
) -> (res: MiningStep)
    requires
        old(chain).wf(),
    ensures
        final(chain).wf(),
        old(chain).best_tip@ != candidate.parent.block.hash@ ==> res is Restart && *final(chain) == *old(chain),
        old(chain).best_tip@ == candidate.parent.block.hash@ && found is None ==> {
            &&& res matches MiningStep::Continue { next } && next == nonce_after(batch_start, batch as int)
            &&& same_but_progress(*old(chain), *final(chain))
        },
        old(chain).best_tip@ == candidate.parent.block.hash@ && !(res is Mined) ==> {
            &&& final(chain).mining.attempts == nonce_after(batch_start, 1)
            &&& final(chain).mining.last_hash@ == spec_block_hash(with_nonce(candidate.header, batch_start))
        },
        old(chain).best_tip@ == candidate.parent.block.hash@ ==> (found matches Some((n, h)) ==> found_outcome(
            *old(chain),
            *final(chain),
            found_block(*candidate, n, h),
            n,
            difficulty,
            res,
        )),
{
    if !crate::text::str_equal(&chain.best_tip, &candidate.parent.block.hash) {
        return MiningStep::Restart;
    }
    let mut header = candidate.header.clone();
    header.nonce = batch_start;
    let hash = match block_hash(&header) {
        Ok(hash) => hash,
        Err(_) => String::new(),
    };
    assert(header == with_nonce(candidate.header, batch_start));
    let res = match found {
        None => MiningStep::Continue { next: batch_start.wrapping_add(batch) },
        Some((n, h)) => store_found_block(chain, candidate, n, h, difficulty),
    };
    if let MiningStep::Mined { .. } = res {
    } else {
        let ghost before = *chain;
        chain.mining.attempts = batch_start.wrapping_add(1);
        chain.mining.last_hash = hash;
        proof {
            lemma_wf_keys(before);
            lemma_wf_frame(before, *chain);
        }
    }
    res
}

} // verus!
