//! The block store with forks: accepting blocks and orphans, replaying
//! branch balances, choosing the canonical tip, and the mempool.
use vstd::prelude::*;

use indexmap::IndexMap;

use crate::block::{basic_block_error, genesis_block, spec_genesis, string_views, validate_basic_block};
use crate::indexed::{
    balance_cache_entries, balance_cache_get, balance_cache_insert, balance_cache_new,
    block_entries, block_map_contains, block_map_get, block_map_insert, block_map_len,
    block_map_new, id_cache_entries, id_cache_get, id_cache_insert, id_cache_new, orphan_entries,
    orphan_lists, orphan_map_get_index, orphan_map_len, orphan_map_new, orphan_map_push,
    orphan_map_shift_remove, pool_contains, pool_entries, pool_get_index, pool_insert, pool_len,
    pool_new,
};
use crate::models::{Block, MiningStatus, SignedTransaction, StoredBlock, BLOCK_REWARD};
use crate::store::{
    has_key, index_of, keys_distinct, lemma_index_of_unique, lemma_remove_entry, lemma_store_entry,
    lemma_sum_store, lemma_value_le_total, lookup, remove_entry, store_entry, sum_values, Balances, StringSet,
};
use crate::text::{is_err_with, lemma_seq_less_irreflexive, lemma_seq_less_transitive, owned, seq_less, str_less};
use crate::replay::{bal, replay_prefix, result_agrees, spec_replay_block, validate_and_apply_transactions, Replay};
use crate::transaction::{
    is_reward_transaction, reward_transaction_error, spec_is_reward, spec_valid_normal, validate_normal_transaction,
};

verus! {

/// What became of a block handed to `add_block`.
#[derive(Clone, Copy, Debug, PartialEq, Eq, Structural)]
pub enum BlockAddStatus {
    Added,
    Duplicate,
    Orphan,
}

/// The result of `add_block`: its status, the blocks connected (the block and
/// any orphans waiting for it), the orphans that failed to connect with their
/// errors, and the canonical tip before and after.
#[derive(Debug)]
pub struct BlockAddOutcome {
    pub status: BlockAddStatus,
    pub added_blocks: Vec<Block>,
    pub rejected_orphans: Vec<(String, String)>,
    pub old_tip: String,
    pub new_tip: String,
}

impl BlockAddStatus {
    /// The status as it appears in API responses.
    pub fn as_str(self) -> (res: &'static str)
        ensures
            self == BlockAddStatus::Added ==> res@ == "added"@,
            self == BlockAddStatus::Duplicate ==> res@ == "duplicate"@,
            self == BlockAddStatus::Orphan ==> res@ == "orphan"@,
    {
        match self {
            BlockAddStatus::Added => "added",
            BlockAddStatus::Duplicate => "duplicate",
            BlockAddStatus::Orphan => "orphan",
        }
    }
}

/// A node's view of the block tree: every accepted block (all forks), the
/// selected tip, pending transfers, blocks waiting for their parent, blocked
/// peers, the mining job, and each block's replayed balances and ids.
#[derive(Debug)]
pub struct ChainState {
    pub blocks: IndexMap<String, StoredBlock>,
    pub best_tip: String,
    pub mempool: IndexMap<String, SignedTransaction>,
    pub orphan_blocks: IndexMap<String, Vec<Block>>,
    pub blocked_peers: StringSet,
    pub mining: MiningStatus,
    pub balances_cache: IndexMap<String, Balances>,
    pub tx_ids_cache: IndexMap<String, StringSet>,
}

/// The fork-choice order: higher height, then more transactions in the branch,
/// then a newer tip timestamp, then the lexicographically smaller hash.
pub open spec fn spec_better_tip(candidate: StoredBlock, current: StoredBlock) -> bool {
    if candidate.height != current.height {
        candidate.height > current.height
    } else if candidate.total_transactions != current.total_transactions {
        candidate.total_transactions > current.total_transactions
    } else if candidate.block.header.timestamp != current.block.header.timestamp {
        candidate.block.header.timestamp > current.block.header.timestamp
    } else {
        seq_less(candidate.block.hash@, current.block.hash@)
    }
}

impl ChainState {
    /// The stored blocks, in arrival order.
    pub open spec fn block_list(&self) -> Seq<(Seq<char>, StoredBlock)> {
        block_entries(self.blocks)
    }

    /// Whether a block with this hash is stored.
    pub open spec fn knows(&self, hash: Seq<char>) -> bool {
        has_key(self.block_list(), hash)
    }

    /// The stored block with this hash.
    pub open spec fn stored(&self, hash: Seq<char>) -> StoredBlock {
        lookup(self.block_list(), hash).unwrap()
    }

    /// The balances after replaying the branch ending in this block.
    pub open spec fn balances_at(&self, hash: Seq<char>) -> Balances {
        lookup(balance_cache_entries(self.balances_cache), hash).unwrap()
    }

    /// The transaction ids of the branch ending in this block.
    pub open spec fn ids_at(&self, hash: Seq<char>) -> StringSet {
        lookup(id_cache_entries(self.tx_ids_cache), hash).unwrap()
    }

    /// The pending transfers, in arrival order.
    pub open spec fn pool(&self) -> Seq<(Seq<char>, SignedTransaction)> {
        pool_entries(self.mempool)
    }

    /// The orphan lists by missing parent.
    pub open spec fn orphans(&self) -> Seq<(Seq<char>, Seq<Block>)> {
        orphan_lists(orphan_entries(self.orphan_blocks))
    }

    /// The selected tip.
    pub open spec fn best(&self) -> StoredBlock {
        self.stored(self.best_tip@)
    }

    /// No stored block is better than the selected tip under the fork-choice order.
    pub open spec fn tip_is_best(&self) -> bool {
        forall|h: Seq<char>| #[trigger] self.knows(h) ==> !spec_better_tip(self.stored(h), self.best())
    }

    /// What holds of each stored block: it is stored under its own hash, its
    /// replayed balances hold one reward per block of the branch, its id set
    /// holds one id per transaction of the branch, and its parent is stored one
    /// level below it; the genesis level starts from no balances and no ids, and
    /// every other block's balances and ids are its transactions replayed on
    /// its parent's.
    pub open spec fn block_ok(&self, hash: Seq<char>) -> bool {
        let sb = self.stored(hash);
        &&& sb.block.hash@ == hash
        &&& has_key(balance_cache_entries(self.balances_cache), hash)
        &&& has_key(id_cache_entries(self.tx_ids_cache), hash)
        &&& self.balances_at(hash).wf()
        &&& self.ids_at(hash).wf()
        &&& self.balances_at(hash).total() == sb.height as int * BLOCK_REWARD as int
        &&& self.ids_at(hash).size() == sb.total_transactions
        &&& sb.height > 0 ==> {
            &&& self.knows(sb.block.header.previous_hash@)
            &&& self.stored(sb.block.header.previous_hash@).height == sb.height - 1
        }
        &&& sb.height == 0 ==> self.balances_at(hash).entries().len() == 0 && self.ids_at(hash).items().len() == 0
        &&& sb.height > 0 ==> child_replay(*self, sb.block.header.previous_hash@, sb.block) == Replay::Applied(
            self.balances_at(hash).entries(),
            self.ids_at(hash).items(),
        )
    }

    /// The invariant of the block store.
    #[verifier::opaque]
    pub open spec fn wf(&self) -> bool {
        &&& keys_distinct(self.block_list())
        &&& keys_distinct(balance_cache_entries(self.balances_cache))
        &&& keys_distinct(id_cache_entries(self.tx_ids_cache))
        &&& keys_distinct(self.pool())
        &&& keys_distinct(orphan_entries(self.orphan_blocks))
        &&& forall|h: Seq<char>| #[trigger] self.knows(h) ==> self.block_ok(h)
        &&& forall|h: Seq<char>| #[trigger] has_key(balance_cache_entries(self.balances_cache), h) ==> self.knows(h)
        &&& forall|h: Seq<char>| #[trigger] has_key(id_cache_entries(self.tx_ids_cache), h) ==> self.knows(h)
        &&& self.knows(self.best_tip@)
        &&& self.blocked_peers.wf()
    }

    /// A fresh store holding only the genesis block of this difficulty.
    pub fn new(difficulty: u32) -> (res: Self)
        ensures
            res.wf(),
            res.block_list().len() == 1,
            spec_genesis(res.best().block, difficulty),
            res.best().height == 0,
            res.best().total_transactions == 0,
            res.pool().len() == 0,
            res.orphans().len() == 0,
            res.tip_is_best(),
            res.blocked_peers.items().len() == 0,
            !res.mining.active,
            res.mining.current_height == 0,
            res.mining.candidate_parent@ == Seq::<char>::empty(),
            res.mining.attempts == 0,
            res.mining.last_hash@ == Seq::<char>::empty(),
            res.mining.last_mined_hash@ == Seq::<char>::empty(),
            res.mining.started_at_ms == 0,
    {
        let genesis = genesis_block(difficulty);
        let genesis_hash = genesis.hash.clone();
        let stored = StoredBlock { block: genesis, height: 0, total_transactions: 0 };
        let mut blocks = block_map_new();
        block_map_insert(&mut blocks, genesis_hash.clone(), stored);
        let mut balances_cache = balance_cache_new();
        balance_cache_insert(&mut balances_cache, genesis_hash.clone(), Balances::new());
        let mut tx_ids_cache = id_cache_new();
        id_cache_insert(&mut tx_ids_cache, genesis_hash.clone(), StringSet::new());
        let res = ChainState {
            blocks,
            best_tip: genesis_hash,
            mempool: pool_new(),
            orphan_blocks: orphan_map_new(),
            blocked_peers: StringSet::new(),
            mining: MiningStatus::default(),
            balances_cache,
            tx_ids_cache,
        };
        proof {
            reveal(ChainState::wf);
            let h = res.best_tip@;
            assert(res.block_list()[0].0 == h);
            lemma_index_of_unique(res.block_list(), 0);
            assert(balance_cache_entries(res.balances_cache)[0].0 == h);
            lemma_index_of_unique(balance_cache_entries(res.balances_cache), 0);
            assert(id_cache_entries(res.tx_ids_cache)[0].0 == h);
            lemma_index_of_unique(id_cache_entries(res.tx_ids_cache), 0);
            assert(res.orphans() =~= Seq::<(Seq<char>, Seq<Block>)>::empty());
            assert forall|k: Seq<char>| #[trigger] res.knows(k) implies res.block_ok(k) by {
                assert(res.block_list()[index_of(res.block_list(), k)].0 == k);
            }
            assert forall|k: Seq<char>| #[trigger] has_key(balance_cache_entries(res.balances_cache), k) implies res.knows(k) by {
                assert(balance_cache_entries(res.balances_cache)[index_of(balance_cache_entries(res.balances_cache), k)].0 == k);
            }
            assert forall|k: Seq<char>| #[trigger] has_key(id_cache_entries(res.tx_ids_cache), k) implies res.knows(k) by {
                assert(id_cache_entries(res.tx_ids_cache)[index_of(id_cache_entries(res.tx_ids_cache), k)].0 == k);
            }
            assert forall|k: Seq<char>| #[trigger] res.knows(k) implies !spec_better_tip(res.stored(k), res.best()) by {
                assert(res.block_list()[index_of(res.block_list(), k)].0 == k);
                lemma_better_tip_irreflexive(res.best());
            }
        }
        res
    }
}

/// What replaying `block` on the branch ending in `parent_hash` gives.
pub open spec fn child_replay(chain: ChainState, parent_hash: Seq<char>, block: Block) -> Replay {
    spec_replay_block(
        chain.balances_at(parent_hash).entries(),
        chain.ids_at(parent_hash).items(),
        block.transactions@,
        block.header.creator@,
    )
}

/// Whether a block's height does not follow its parent's.
pub open spec fn height_breaks(block: Block, parent: StoredBlock) -> bool {
    parent.height == u64::MAX || block.header.height != parent.height + 1
}

/// The outcome of checking `block` as a child of `parent`: its structure, the
/// link to the parent, its height, and the replay of its transactions on the
/// parent's branch.
pub open spec fn extend_outcome(chain: ChainState, block: Block, parent: StoredBlock, difficulty: u32) -> Replay {
    if basic_block_error(block, difficulty) is Some {
        Replay::Rejected(basic_block_error(block, difficulty))
    } else if block.header.previous_hash@ != parent.block.hash@ {
        Replay::Rejected(Some("block parent hash does not match parent"@))
    } else if height_breaks(block, parent) {
        Replay::Rejected(Some("block height does not extend parent"@))
    } else if !has_key(balance_cache_entries(chain.balances_cache), parent.block.hash@) {
        Replay::Rejected(Some("parent balances cache is missing"@))
    } else if !has_key(id_cache_entries(chain.tx_ids_cache), parent.block.hash@) {
        Replay::Rejected(Some("parent transaction cache is missing"@))
    } else {
        child_replay(chain, parent.block.hash@, block)
    }
}

/// Replays `block` on the branch of `parent`, giving the child's balances and ids.
fn derive_child_caches(parent: &StoredBlock, block: &Block, chain: &ChainState) -> (res: Result<(Balances, StringSet), String>)
    requires
        chain.wf(),
        chain.knows(parent.block.hash@) ==> chain.stored(parent.block.hash@).height < u64::MAX,
    ensures
        !has_key(balance_cache_entries(chain.balances_cache), parent.block.hash@) ==> is_err_with(
            res,
            "parent balances cache is missing"@,
        ),
        has_key(balance_cache_entries(chain.balances_cache), parent.block.hash@) ==> {
            &&& chain.knows(parent.block.hash@)
            &&& result_agrees(res, child_replay(*chain, parent.block.hash@, *block))
            &&& child_replay(*chain, parent.block.hash@, *block) matches Replay::Applied(e, ids) ==> (
            res matches Ok(caches) && {
                &&& caches.0.entries() == e
                &&& caches.1.items() == ids
                &&& caches.0.wf()
                &&& caches.1.wf()
                &&& caches.0.total() == chain.balances_at(parent.block.hash@).total() + BLOCK_REWARD
                &&& ids.len() == chain.ids_at(parent.block.hash@).items().len() + block.transactions@.len()
            })
        },
{
    proof { reveal(ChainState::wf); }
    let mut balances = match balance_cache_get(&chain.balances_cache, &parent.block.hash) {
        Some(b) => b.duplicate(),
        None => return Err(owned("parent balances cache is missing")),
    };
    let mut tx_ids = match id_cache_get(&chain.tx_ids_cache, &parent.block.hash) {
        Some(s) => s.duplicate(),
        None => return Err(owned("parent transaction cache is missing")),
    };
    proof {
        let h = parent.block.hash@;
        lemma_wf_block(*chain, h);
    }
    validate_and_apply_transactions(block, &mut balances, &mut tx_ids)?;
    Ok((balances, tx_ids))
}

/// Checks `block` as a child of `parent`: structure, parent link, height and
/// the replay of its transactions on the parent's branch.
pub fn validate_block_against_parent(block: &Block, parent: &StoredBlock, chain: &ChainState, difficulty: u32) -> (res: Result<(), String>)
    requires
        chain.wf(),
        chain.knows(parent.block.hash@) && parent.height < u64::MAX ==> chain.stored(parent.block.hash@).height
            < u64::MAX,
    ensures
        result_agrees(res, extend_outcome(*chain, *block, *parent, difficulty)),
{
    proof { reveal(ChainState::wf); }
    validate_basic_block(block, difficulty)?;
    if block.header.previous_hash != parent.block.hash {
        return Err(owned("block parent hash does not match parent"));
    }
    if parent.height == u64::MAX || block.header.height != parent.height + 1 {
        return Err(owned("block height does not extend parent"));
    }
    match derive_child_caches(parent, block, chain) {
        Ok(_) => Ok(()),
        Err(error) => Err(error),
    }
}

/// Whether `candidate` should replace `current` as the canonical tip.
pub fn better_tip(candidate: &StoredBlock, current: &StoredBlock) -> (res: bool)
    ensures
        res == spec_better_tip(*candidate, *current),
{
    if candidate.height != current.height {
        return candidate.height > current.height;
    }
    if candidate.total_transactions != current.total_transactions {
        return candidate.total_transactions > current.total_transactions;
    }
    if candidate.block.header.timestamp != current.block.header.timestamp {
        return candidate.block.header.timestamp > current.block.header.timestamp;
    }
    str_less(&candidate.block.hash, &current.block.hash)
}

/// Every block stored before is stored after, unchanged.
pub open spec fn grows(before: ChainState, after: ChainState) -> bool {
    forall|h: Seq<char>| #[trigger] before.knows(h) ==> after.knows(h) && after.stored(h) == before.stored(h)
}

/// The tip after is the tip before or a better one.
pub open spec fn tip_not_worse(before: ChainState, after: ChainState) -> bool {
    after.best_tip@ == before.best_tip@ || spec_better_tip(after.best(), before.best())
}

/// No pending transfer is already on the canonical chain.
pub open spec fn pool_clean(c: ChainState) -> bool {
    forall|i: int| 0 <= i < c.pool().len() ==> !c.canonical_ids().contains(#[trigger] c.pool()[i].0)
}

/// Every pending transfer after was pending before.
pub open spec fn pool_kept(before: ChainState, after: ChainState) -> bool {
    forall|i: int| 0 <= i < after.pool().len() ==> before.pool().contains(#[trigger] after.pool()[i])
}

/// The number of blocks waiting in orphan lists.
pub open spec fn orphan_total(e: Seq<(Seq<char>, Vec<Block>)>) -> int
    decreases e.len(),
{
    if e.len() == 0 {
        0
    } else {
        orphan_total(e.drop_last()) + e.last().1@.len()
    }
}

proof fn lemma_orphan_total_nonneg(e: Seq<(Seq<char>, Vec<Block>)>)
    ensures
        orphan_total(e) >= 0,
    decreases e.len(),
{
    if e.len() > 0 {
        lemma_orphan_total_nonneg(e.drop_last());
    }
}

proof fn lemma_orphan_total_remove(e: Seq<(Seq<char>, Vec<Block>)>, i: int)
    requires
        0 <= i < e.len(),
    ensures
        orphan_total(e.remove(i)) == orphan_total(e) - e[i].1@.len(),
    decreases e.len(),
{
    if i == e.len() - 1 {
        assert(e.remove(i) =~= e.drop_last());
    } else {
        lemma_orphan_total_remove(e.drop_last(), i);
        assert(e.remove(i).drop_last() =~= e.drop_last().remove(i));
        assert(e.remove(i).last() == e.last());
    }
}

/// Whether some orphan list holds a block with this hash.
pub open spec fn orphan_holds(e: Seq<(Seq<char>, Vec<Block>)>, hash: Seq<char>) -> bool {
    exists|i: int, j: int| 0 <= i < e.len() && 0 <= j < e[i].1@.len() && #[trigger] e[i].1@[j].hash@ == hash
}

/// The orphan lists after a block waits for its parent: appended to the list
/// under its parent's hash, or in a new list at the end.
pub open spec fn orphans_after_wait(e: Seq<(Seq<char>, Vec<Block>)>, block: Block) -> Seq<(Seq<char>, Seq<Block>)> {
    let k = block.header.previous_hash@;
    store_entry(
        orphan_lists(e),
        k,
        if has_key(e, k) { e[index_of(e, k)].1@.push(block) } else { seq![block] },
    )
}

/// The blocks waiting for the block with hash `k`: its orphan list, or none.
pub open spec fn waiting(e: Seq<(Seq<char>, Vec<Block>)>, k: Seq<char>) -> Seq<Block> {
    if has_key(e, k) {
        e[index_of(e, k)].1@
    } else {
        Seq::empty()
    }
}

/// Whether some block of the list has hash `h`.
pub open spec fn has_hash(blocks: Seq<Block>, h: Seq<char>) -> bool {
    exists|i: int| 0 <= i < blocks.len() && #[trigger] blocks[i].hash@ == h
}

/// Whether some rejection names hash `h`.
pub open spec fn rejects(r: Seq<(String, String)>, h: Seq<char>) -> bool {
    exists|i: int| 0 <= i < r.len() && #[trigger] r[i].0@ == h
}

/// A block waiting for another is held in the orphan lists.
proof fn lemma_waiting_held(e: Seq<(Seq<char>, Vec<Block>)>, k: Seq<char>, j: int)
    requires
        0 <= j < waiting(e, k).len(),
    ensures
        orphan_holds(e, waiting(e, k)[j].hash@),
{
    let i = index_of(e, k);
    assert(has_key(e, k));
    assert(0 <= i < e.len() && e[i].0 == k);
    assert(e[i].1@[j].hash@ == waiting(e, k)[j].hash@);
}

/// Removing one key leaves what waits for every other key.
proof fn lemma_waiting_remove(e: Seq<(Seq<char>, Vec<Block>)>, k: Seq<char>, k2: Seq<char>)
    requires
        keys_distinct(e),
        k2 != k,
    ensures
        waiting(remove_entry(e, k), k2) == waiting(e, k2),
{
    lemma_remove_entry(e, k);
    let r = remove_entry(e, k);
    assert(has_key(r, k2) == has_key(e, k2));
    assert(lookup(r, k2) == lookup(e, k2));
}

/// The mempool without the entries whose id is listed, order kept.
pub open spec fn unlisted(e: Seq<(Seq<char>, SignedTransaction)>, ids: Seq<Seq<char>>) -> Seq<(Seq<char>, SignedTransaction)>
    decreases e.len(),
{
    if e.len() == 0 {
        e
    } else if ids.contains(e.last().0) {
        unlisted(e.drop_last(), ids)
    } else {
        unlisted(e.drop_last(), ids).push(e.last())
    }
}

proof fn lemma_unlisted_keys(e: Seq<(Seq<char>, SignedTransaction)>, ids: Seq<Seq<char>>, k: Seq<char>)
    ensures
        has_key(unlisted(e, ids), k) ==> has_key(e, k),
    decreases e.len(),
{
    if e.len() > 0 {
        lemma_unlisted_keys(e.drop_last(), ids, k);
        let u = unlisted(e, ids);
        if has_key(u, k) {
            let i = index_of(u, k);
            let ud = unlisted(e.drop_last(), ids);
            if !ids.contains(e.last().0) && i == ud.len() {
                assert(e[e.len() - 1].0 == k);
            } else {
                assert(ud[i].0 == k);
                let j = index_of(e.drop_last(), k);
                assert(e[j].0 == k);
            }
        }
    }
}

/// The pool without the listed ids holds only entries of the pool, none of
/// them listed.
proof fn lemma_unlisted_entries(e: Seq<(Seq<char>, SignedTransaction)>, ids: Seq<Seq<char>>)
    ensures
        forall|i: int| 0 <= i < unlisted(e, ids).len() ==> !ids.contains(#[trigger] unlisted(e, ids)[i].0)
            && e.contains(unlisted(e, ids)[i]),
    decreases e.len(),
{
    if e.len() > 0 {
        lemma_unlisted_entries(e.drop_last(), ids);
        let u = unlisted(e, ids);
        let ud = unlisted(e.drop_last(), ids);
        assert forall|i: int| 0 <= i < u.len() implies !ids.contains(#[trigger] u[i].0) && e.contains(u[i]) by {
            if i < ud.len() {
                assert(u[i] == ud[i]);
                let k = choose|k: int| 0 <= k < e.drop_last().len() && e.drop_last()[k] == ud[i];
                assert(e[k] == ud[i]);
            } else {
                assert(u[i] == e.last());
                assert(e[e.len() - 1] == e.last());
            }
        }
    }
}

proof fn lemma_unlisted_distinct(e: Seq<(Seq<char>, SignedTransaction)>, ids: Seq<Seq<char>>)
    requires
        keys_distinct(e),
    ensures
        keys_distinct(unlisted(e, ids)),
    decreases e.len(),
{
    if e.len() > 0 {
        let d = e.drop_last();
        assert(keys_distinct(d)) by {
            assert forall|i: int, j: int| 0 <= i < j < d.len() implies #[trigger] d[i].0 != #[trigger] d[j].0 by {
                assert(e[i].0 != e[j].0);
            }
        }
        lemma_unlisted_distinct(d, ids);
        if !ids.contains(e.last().0) {
            let ud = unlisted(d, ids);
            let u = unlisted(e, ids);
            assert forall|i: int, j: int| 0 <= i < j < u.len() implies #[trigger] u[i].0 != #[trigger] u[j].0 by {
                if j == ud.len() {
                    lemma_unlisted_keys(d, ids, ud[i].0);
                    assert(has_key(ud, ud[i].0));
                    let m = index_of(d, ud[i].0);
                    assert(e[m].0 != e[e.len() - 1].0);
                } else {
                    assert(ud[i].0 != ud[j].0);
                }
            }
        }
    }
}

impl ChainState {
    /// The transaction ids of the canonical branch.
    pub open spec fn canonical_ids(&self) -> Seq<Seq<char>> {
        if has_key(id_cache_entries(self.tx_ids_cache), self.best_tip@) {
            self.ids_at(self.best_tip@).items()
        } else {
            Seq::empty()
        }
    }

    /// The number of blocks waiting for their parent.
    pub open spec fn orphan_count_spec(&self) -> int {
        orphan_total(orphan_entries(self.orphan_blocks))
    }
}

/// Changing only the mempool keeps the invariant, when its keys stay distinct.
proof fn lemma_wf_pool_change(a: ChainState, b: ChainState)
    requires
        a.wf(),
        keys_distinct(b.pool()),
        b.blocks == a.blocks,
        b.best_tip == a.best_tip,
        b.orphan_blocks == a.orphan_blocks,
        b.blocked_peers == a.blocked_peers,
        b.balances_cache == a.balances_cache,
        b.tx_ids_cache == a.tx_ids_cache,
    ensures
        b.wf(),
{
    reveal(ChainState::wf);
    assert forall|h: Seq<char>| #[trigger] b.knows(h) implies b.block_ok(h) by {
        assert(a.knows(h));
        assert(a.block_ok(h));
    }
    assert forall|h: Seq<char>| #[trigger] has_key(balance_cache_entries(b.balances_cache), h) implies b.knows(h) by {
        assert(has_key(balance_cache_entries(a.balances_cache), h));
    }
    assert forall|h: Seq<char>| #[trigger] has_key(id_cache_entries(b.tx_ids_cache), h) implies b.knows(h) by {
        assert(has_key(id_cache_entries(a.tx_ids_cache), h));
    }
}

/// The transaction ids of the canonical branch.
pub fn canonical_tx_ids(chain: &ChainState) -> (res: StringSet)
    ensures
        res.items() == chain.canonical_ids(),
        chain.wf() ==> res.wf(),
{
    proof { reveal(ChainState::wf); }
    match id_cache_get(&chain.tx_ids_cache, &chain.best_tip) {
        Some(ids) => {
            proof {
                if chain.wf() {
                    lemma_wf_block(*chain, chain.best_tip@);
                }
            }
            ids.duplicate()
        },
        None => StringSet::new(),
    }
}

/// The balances of the canonical branch.
pub fn balances_for_best(chain: &ChainState) -> (res: Balances)
    ensures
        res.entries() == if has_key(balance_cache_entries(chain.balances_cache), chain.best_tip@) {
            chain.balances_at(chain.best_tip@).entries()
        } else {
            Seq::empty()
        },
        chain.wf() ==> res.entries() == chain.balances_at(chain.best_tip@).entries(),
{
    proof { reveal(ChainState::wf); }
    match balance_cache_get(&chain.balances_cache, &chain.best_tip) {
        Some(balances) => balances.duplicate(),
        None => {
            proof {
                if chain.wf() {
                    lemma_wf_block(*chain, chain.best_tip@);
                }
            }
            Balances::new()
        },
    }
}

/// The canonical tip's stored block.
pub fn best_block(chain: &ChainState) -> (res: Option<&StoredBlock>)
    ensures
        res is Some <==> chain.knows(chain.best_tip@),
        res matches Some(b) ==> *b == chain.best(),
{
    block_map_get(&chain.blocks, &chain.best_tip)
}

/// A summary of the block store: the selected tip with its height and branch
/// transaction count, and how many blocks, orphans and pending transfers
/// there are.
#[derive(Debug)]
pub struct ChainStatus {
    pub height: u64,
    pub tip: String,
    pub total_transactions: u64,
    pub known_blocks: usize,
    pub orphans: usize,
    pub mempool: usize,
}

/// The summary of the block store.
pub fn chain_status(chain: &ChainState) -> (res: ChainStatus)
    ensures
        res.height == (if chain.knows(chain.best_tip@) { chain.best().height } else { 0 }),
        res.total_transactions == (if chain.knows(chain.best_tip@) { chain.best().total_transactions } else { 0 }),
        res.tip == chain.best_tip,
        res.known_blocks == chain.block_list().len(),
        res.orphans == (if chain.orphan_count_spec() > usize::MAX { usize::MAX as int } else {
            chain.orphan_count_spec()
        }),
        res.mempool == chain.pool().len(),
{
    let (height, total_transactions) = match best_block(chain) {
        Some(best) => (best.height, best.total_transactions),
        None => (0, 0),
    };
    ChainStatus {
        height,
        tip: chain.best_tip.clone(),
        total_transactions,
        known_blocks: block_map_len(&chain.blocks),
        orphans: orphan_count(chain),
        mempool: pool_len(&chain.mempool),
    }
}

/// The number of blocks waiting for their parent (`usize::MAX` if that many).
pub fn orphan_count(chain: &ChainState) -> (res: usize)
    ensures
        res == if chain.orphan_count_spec() > usize::MAX { usize::MAX as int } else { chain.orphan_count_spec() },
{
    let ghost e = orphan_entries(chain.orphan_blocks);
    let n = orphan_map_len(&chain.orphan_blocks);
    let mut total: usize = 0;
    let mut i: usize = 0;
    while i < n
        invariant
            e == orphan_entries(chain.orphan_blocks),
            n == e.len(),
            i <= n,
            total == if orphan_total(e.take(i as int)) > usize::MAX { usize::MAX as int } else { orphan_total(e.take(i as int)) },
        decreases n - i,
    {
        let entry = orphan_map_get_index(&chain.orphan_blocks, i);
        match entry {
            Some(kv) => {
                assert(e.take(i + 1).drop_last() == e.take(i as int));
                proof { lemma_orphan_total_nonneg(e.take(i as int)); }
                total = total.saturating_add(kv.1.len());
            },
            None => {},
        }
        i = i + 1;
    }
    assert(e.take(n as int) == e);
    total
}

/// Whether some orphan list holds a block with this hash.
fn orphan_contains(chain: &ChainState, hash: &str) -> (res: bool)
    ensures
        res == orphan_holds(orphan_entries(chain.orphan_blocks), hash@),
{
    let ghost e = orphan_entries(chain.orphan_blocks);
    let n = orphan_map_len(&chain.orphan_blocks);
    let mut i: usize = 0;
    while i < n
        invariant
            e == orphan_entries(chain.orphan_blocks),
            n == e.len(),
            i <= n,
            forall|a: int, b: int| 0 <= a < i && 0 <= b < e[a].1@.len() ==> #[trigger] e[a].1@[b].hash@ != hash@,
        decreases n - i,
    {
        if let Some(kv) = orphan_map_get_index(&chain.orphan_blocks, i) {
            let list = kv.1;
            let mut j: usize = 0;
            while j < list.len()
                invariant
                    e == orphan_entries(chain.orphan_blocks),
                    i < e.len(),
                    *list == e[i as int].1,
                    j <= list@.len(),
                    forall|b: int| 0 <= b < j ==> #[trigger] list@[b].hash@ != hash@,
                decreases list@.len() - j,
            {
                if crate::text::str_equal(&list[j].hash, hash) {
                    assert(e[i as int].1@[j as int].hash@ == hash@);
                    return true;
                }
                j = j + 1;
            }
        }
        i = i + 1;
    }
    false
}

/// Drops from the mempool every transfer already in the canonical branch.
pub fn prune_mempool(chain: &mut ChainState)
    requires
        old(chain).wf(),
    ensures
        final(chain).wf(),
        final(chain).pool() == unlisted(old(chain).pool(), old(chain).canonical_ids()),
        final(chain).blocks == old(chain).blocks,
        final(chain).best_tip == old(chain).best_tip,
        final(chain).orphan_blocks == old(chain).orphan_blocks,
        final(chain).blocked_peers == old(chain).blocked_peers,
        final(chain).mining == old(chain).mining,
        final(chain).balances_cache == old(chain).balances_cache,
        final(chain).tx_ids_cache == old(chain).tx_ids_cache,
{
    proof { reveal(ChainState::wf); }
    let tx_ids = canonical_tx_ids(chain);
    let ghost e = chain.pool();
    let ghost ids = tx_ids.items();
    let n = pool_len(&chain.mempool);
    let mut kept = pool_new();
    let mut i: usize = 0;
    while i < n
        invariant
            e == pool_entries(chain.mempool),
            keys_distinct(e),
            ids == tx_ids.items(),
            n == e.len(),
            i <= n,
            pool_entries(kept) == unlisted(e.take(i as int), ids),
            keys_distinct(pool_entries(kept)),
        decreases n - i,
    {
        assert(e.take(i + 1).drop_last() == e.take(i as int));
        assert(e.take(i + 1).last() == e[i as int]);
        if let Some(kv) = pool_get_index(&chain.mempool, i) {
            if !tx_ids.contains(kv.0) {
                proof {
                    let k = e[i as int].0;
                    lemma_unlisted_keys(e.take(i as int), ids, k);
                    if has_key(e.take(i as int), k) {
                        let j = index_of(e.take(i as int), k);
                        assert(e[j].0 != e[i as int].0);
                    }
                }
                pool_insert(&mut kept, kv.0.clone(), kv.1.clone());
            }
        }
        i = i + 1;
    }
    assert(e.take(n as int) == e);
    let ghost before = *chain;
    chain.mempool = kept;
    proof {
        lemma_unlisted_distinct(e, ids);
        lemma_wf_pool_change(before, *chain);
    }
}

/// Accepts a valid transfer into the mempool; `Ok(false)` when it is already
/// pending or already in the canonical branch.
pub fn add_transaction_to_mempool(chain: &mut ChainState, tx: SignedTransaction) -> (res: Result<bool, String>)
    requires
        old(chain).wf(),
    ensures
        final(chain).wf(),
        res is Err <==> !spec_valid_normal(tx),
        crate::transaction::normal_transaction_error(tx) matches Some(msg) ==> is_err_with(res, msg),
        crate::transaction::normal_transaction_error(tx) is None && !spec_valid_normal(tx) ==> (res matches Err(e)
            && "invalid signature: "@.is_prefix_of(e@)),
        res matches Err(e) ==> crate::transaction::normal_validation_error(tx) == Some(e@),
        res matches Ok(added) ==> added == !(has_key(old(chain).pool(), tx.id@) || old(chain).canonical_ids().contains(tx.id@)),
        res matches Ok(true) ==> final(chain).pool() == old(chain).pool().push((tx.id@, tx)),
        !(res matches Ok(true)) ==> final(chain).pool() == old(chain).pool(),
        res is Ok ==> has_key(final(chain).pool(), tx.id@) || final(chain).canonical_ids().contains(tx.id@),
        final(chain).blocks == old(chain).blocks,
        final(chain).best_tip == old(chain).best_tip,
        final(chain).orphan_blocks == old(chain).orphan_blocks,
        final(chain).balances_cache == old(chain).balances_cache,
        final(chain).tx_ids_cache == old(chain).tx_ids_cache,
        final(chain).blocked_peers == old(chain).blocked_peers,
        final(chain).mining == old(chain).mining,
{
    validate_normal_transaction(&tx)?;
    if pool_contains(&chain.mempool, &tx.id) || canonical_tx_ids(chain).contains(&tx.id) {
        return Ok(false);
    }
    let id = tx.id.clone();
    let ghost before = *chain;
    let ghost tid = tx.id@;
    pool_insert(&mut chain.mempool, id, tx);
    proof {
        lemma_wf_pool_change(before, *chain);
        assert(chain.pool()[before.pool().len() as int].0 == tid);
    }
    Ok(true)
}

/// What the invariant says of one stored block.
pub proof fn lemma_wf_block(c: ChainState, h: Seq<char>)
    requires
        c.wf(),
        c.knows(h),
    ensures
        c.block_ok(h),
{
    reveal(ChainState::wf);
}

/// The facts of the invariant about keys and the tip.
pub proof fn lemma_wf_keys(c: ChainState)
    requires
        c.wf(),
    ensures
        keys_distinct(c.block_list()),
        keys_distinct(c.pool()),
        keys_distinct(orphan_entries(c.orphan_blocks)),
        c.knows(c.best_tip@),
        c.block_ok(c.best_tip@),
{
    reveal(ChainState::wf);
}

/// Moving the tip to another stored block keeps the invariant.
proof fn lemma_wf_new_tip(a: ChainState, b: ChainState)
    requires
        a.wf(),
        a.knows(b.best_tip@),
        b.blocks == a.blocks,
        b.mempool == a.mempool,
        b.orphan_blocks == a.orphan_blocks,
        b.blocked_peers == a.blocked_peers,
        b.balances_cache == a.balances_cache,
        b.tx_ids_cache == a.tx_ids_cache,
    ensures
        b.wf(),
        grows(a, b),
{
    reveal(ChainState::wf);
    assert forall|h: Seq<char>| #[trigger] b.knows(h) implies b.block_ok(h) by {
        assert(a.knows(h));
        assert(a.block_ok(h));
    }
    assert forall|h: Seq<char>| #[trigger] has_key(balance_cache_entries(b.balances_cache), h) implies b.knows(h) by {
        assert(a.knows(h));
    }
    assert forall|h: Seq<char>| #[trigger] has_key(id_cache_entries(b.tx_ids_cache), h) implies b.knows(h) by {
        assert(a.knows(h));
    }
}

/// The fork-choice order is transitive.
pub proof fn lemma_better_tip_transitive(a: StoredBlock, b: StoredBlock, c: StoredBlock)
    requires
        spec_better_tip(a, b),
        spec_better_tip(b, c),
    ensures
        spec_better_tip(a, c),
{
    if a.height == b.height && b.height == c.height && a.total_transactions == b.total_transactions
        && b.total_transactions == c.total_transactions && a.block.header.timestamp == b.block.header.timestamp
        && b.block.header.timestamp == c.block.header.timestamp {
        lemma_seq_less_transitive(a.block.hash@, b.block.hash@, c.block.hash@);
    }
}

/// No stored block is better than itself.
pub proof fn lemma_better_tip_irreflexive(a: StoredBlock)
    ensures
        !spec_better_tip(a, a),
{
    lemma_seq_less_irreflexive(a.block.hash@);
}

/// Only the mempool, the orphan lists and the mining job changed, with keys
/// still distinct: the invariant is kept.
pub(crate) proof fn lemma_wf_frame(a: ChainState, b: ChainState)
    requires
        a.wf(),
        keys_distinct(b.pool()),
        keys_distinct(orphan_entries(b.orphan_blocks)),
        b.blocks == a.blocks,
        b.best_tip == a.best_tip,
        b.blocked_peers == a.blocked_peers,
        b.balances_cache == a.balances_cache,
        b.tx_ids_cache == a.tx_ids_cache,
    ensures
        b.wf(),
        grows(a, b),
{
    reveal(ChainState::wf);
    assert forall|h: Seq<char>| #[trigger] b.knows(h) implies b.block_ok(h) by {
        assert(a.knows(h));
        assert(a.block_ok(h));
    }
    assert forall|h: Seq<char>| #[trigger] has_key(balance_cache_entries(b.balances_cache), h) implies b.knows(h) by {
        assert(has_key(balance_cache_entries(a.balances_cache), h));
    }
    assert forall|h: Seq<char>| #[trigger] has_key(id_cache_entries(b.tx_ids_cache), h) implies b.knows(h) by {
        assert(has_key(id_cache_entries(a.tx_ids_cache), h));
    }
}

/// Changing only the blocked peers (and the mining job) keeps the invariant,
/// as long as the blocked peers stay a set.
pub(crate) proof fn lemma_wf_blocked(a: ChainState, b: ChainState)
    requires
        a.wf(),
        b.blocked_peers.wf(),
        b.blocks == a.blocks,
        b.best_tip == a.best_tip,
        b.mempool == a.mempool,
        b.orphan_blocks == a.orphan_blocks,
        b.balances_cache == a.balances_cache,
        b.tx_ids_cache == a.tx_ids_cache,
    ensures
        b.wf(),
{
    reveal(ChainState::wf);
    assert forall|h: Seq<char>| #[trigger] b.knows(h) implies b.block_ok(h) by {
        assert(a.knows(h));
        assert(a.block_ok(h));
    }
    assert forall|h: Seq<char>| #[trigger] has_key(balance_cache_entries(b.balances_cache), h) implies b.knows(h) by {
        assert(has_key(balance_cache_entries(a.balances_cache), h));
    }
    assert forall|h: Seq<char>| #[trigger] has_key(id_cache_entries(b.tx_ids_cache), h) implies b.knows(h) by {
        assert(has_key(id_cache_entries(a.tx_ids_cache), h));
    }
}

/// Storing a new block whose parent is stored one level below it, with its
/// replayed balances and ids, keeps the invariant.
proof fn lemma_insert_block(a: ChainState, b: ChainState, h: Seq<char>, sb: StoredBlock, bal: Balances, ids: StringSet)
    requires
        a.wf(),
        !a.knows(h),
        b.block_list() == store_entry(a.block_list(), h, sb),
        balance_cache_entries(b.balances_cache) == store_entry(balance_cache_entries(a.balances_cache), h, bal),
        id_cache_entries(b.tx_ids_cache) == store_entry(id_cache_entries(a.tx_ids_cache), h, ids),
        keys_distinct(b.pool()),
        keys_distinct(orphan_entries(b.orphan_blocks)),
        b.best_tip == a.best_tip,
        b.blocked_peers == a.blocked_peers,
        sb.block.hash@ == h,
        bal.wf(),
        ids.wf(),
        bal.total() == sb.height as int * BLOCK_REWARD as int,
        ids.size() == sb.total_transactions,
        sb.height > 0,
        a.knows(sb.block.header.previous_hash@),
        a.stored(sb.block.header.previous_hash@).height == sb.height - 1,
        child_replay(a, sb.block.header.previous_hash@, sb.block) == Replay::Applied(bal.entries(), ids.items()),
    ensures
        b.wf(),
        grows(a, b),
        b.knows(h),
        b.stored(h) == sb,
        forall|k: Seq<char>| #[trigger] b.knows(k) ==> a.knows(k) || k == h,
{
    reveal(ChainState::wf);
    lemma_store_entry(a.block_list(), h, sb);
    lemma_store_entry(balance_cache_entries(a.balances_cache), h, bal);
    lemma_store_entry(id_cache_entries(a.tx_ids_cache), h, ids);
    assert(!has_key(balance_cache_entries(a.balances_cache), h));
    assert(!has_key(id_cache_entries(a.tx_ids_cache), h));
    assert forall|k: Seq<char>| #[trigger] b.knows(k) implies b.block_ok(k) by {
        if k == h {
            assert(b.stored(h) == sb);
            assert(b.balances_at(h) == bal);
            assert(b.ids_at(h) == ids);
            assert(b.knows(sb.block.header.previous_hash@));
        } else {
            assert(a.knows(k));
            assert(a.block_ok(k));
            assert(b.stored(k) == a.stored(k));
            let p = a.stored(k).block.header.previous_hash@;
            if a.stored(k).height > 0 {
                assert(a.knows(p));
                assert(b.knows(p));
                if p != h {
                    assert(b.stored(p) == a.stored(p));
                }
            }
        }
    }
    assert forall|k: Seq<char>| #[trigger] has_key(balance_cache_entries(b.balances_cache), k) implies b.knows(k) by {
        if k != h {
            assert(has_key(balance_cache_entries(a.balances_cache), k));
            assert(a.knows(k));
        }
    }
    assert forall|k: Seq<char>| #[trigger] has_key(id_cache_entries(b.tx_ids_cache), k) implies b.knows(k) by {
        if k != h {
            assert(has_key(id_cache_entries(a.tx_ids_cache), k));
            assert(a.knows(k));
        }
    }
    assert forall|k: Seq<char>| #[trigger] a.knows(k) implies b.knows(k) && b.stored(k) == a.stored(k) by {
        assert(k != h);
    }
    assert forall|k: Seq<char>| #[trigger] b.knows(k) implies a.knows(k) || k == h by {
        if k != h {
            let i = choose|i: int| 0 <= i < b.block_list().len() && #[trigger] b.block_list()[i].0 == k;
            assert(b.block_list() == a.block_list().push((h, sb)));
            assert(i < a.block_list().len());
            assert(a.block_list()[i].0 == k);
        }
    }
    assert(b.knows(b.best_tip@));
}

/// Connects one block whose parent may be stored: checks it against the parent,
/// stores it with its replayed caches, moves the tip when it is better, and
/// takes the orphans that were waiting for it.
#[verifier::rlimit(60)]
fn connect_one(chain: &mut ChainState, block: Block, difficulty: u32, added: &mut Vec<Block>) -> (res: Result<Option<Vec<Block>>, String>)
    requires
        old(chain).wf(),
    ensures
        final(chain).wf(),
        grows(*old(chain), *final(chain)),
        tip_not_worse(*old(chain), *final(chain)),
        !(res matches Ok(Some(_))) ==> *final(chain) == *old(chain) && final(added)@ == old(added)@,
        old(chain).tip_is_best() ==> final(chain).tip_is_best(),
        forall|k: Seq<char>| #[trigger] has_key(orphan_entries(final(chain).orphan_blocks), k) ==> has_key(
            orphan_entries(old(chain).orphan_blocks),
            k,
        ),
        res matches Ok(Some(_)) ==> !has_key(orphan_entries(final(chain).orphan_blocks), block.hash@),
        res matches Ok(None) <==> old(chain).knows(block.hash@),
        !old(chain).knows(block.hash@) && !old(chain).knows(block.header.previous_hash@) ==> is_err_with(
            res,
            "parent block is unknown"@,
        ),
        !old(chain).knows(block.hash@) && old(chain).knows(block.header.previous_hash@) ==> {
            let outcome = extend_outcome(*old(chain), block, old(chain).stored(block.header.previous_hash@), difficulty);
            &&& outcome is Rejected ==> result_agrees(res, outcome)
            &&& outcome is Applied ==> res is Ok
        },
        res matches Ok(Some(children)) ==> {
            &&& final(chain).knows(block.hash@)
            &&& final(added)@ == old(added)@.push(block)
            &&& children@ == waiting(orphan_entries(old(chain).orphan_blocks), block.hash@)
            &&& orphan_entries(final(chain).orphan_blocks) == remove_entry(
                orphan_entries(old(chain).orphan_blocks),
                block.hash@,
            )
            &&& forall|k: Seq<char>| #[trigger] final(chain).knows(k) ==> old(chain).knows(k) || k == block.hash@
            &&& final(chain).best_tip@ == old(chain).best_tip@ ==> final(chain).pool() == old(chain).pool()
            &&& final(chain).best_tip@ != old(chain).best_tip@ ==> final(chain).best_tip@ == block.hash@
                && final(chain).pool() == unlisted(old(chain).pool(), final(chain).canonical_ids())
            &&& (final(chain).best_tip@ != old(chain).best_tip@) == spec_better_tip(
                final(chain).stored(block.hash@),
                old(chain).best(),
            )
            &&& orphan_total(orphan_entries(final(chain).orphan_blocks)) + children@.len() == orphan_total(
                orphan_entries(old(chain).orphan_blocks),
            )
        },
{
    if block_map_contains(&chain.blocks, &block.hash) {
        return Ok(None);
    }
    let parent = match block_map_get(&chain.blocks, &block.header.previous_hash) {
        Some(p) => p.clone(),
        None => return Err(owned("parent block is unknown")),
    };
    let ghost start = *chain;
    proof {
        lemma_wf_keys(start);
        lemma_wf_block(start, block.header.previous_hash@);
        assert(chain.stored(parent.block.hash@).height == parent.height);
    }
    validate_block_against_parent(&block, &parent, chain, difficulty)?;
    let (balances, tx_ids) = match derive_child_caches(&parent, &block, chain) {
        Ok(caches) => caches,
        Err(error) => return Err(error),
    };
    proof {
        let ph = parent.block.hash@;
        lemma_wf_block(*chain, ph);
        tx_ids.lemma_size_bound();
    }
    let stored = StoredBlock {
        height: block.header.height,
        total_transactions: parent.total_transactions + block.transactions.len() as u64,
        block: block.clone(),
    };
    let stored_for_choice = stored.clone();
    let hash = block.hash.clone();
    let ghost sb = stored;
    let ghost bal = balances;
    let ghost ids = tx_ids;
    block_map_insert(&mut chain.blocks, hash.clone(), stored);
    balance_cache_insert(&mut chain.balances_cache, hash.clone(), balances);
    id_cache_insert(&mut chain.tx_ids_cache, hash.clone(), tx_ids);
    added.push(block);
    proof {
        lemma_insert_block(start, *chain, hash@, sb, bal, ids);
        lemma_wf_keys(*chain);
    }
    let current = match block_map_get(&chain.blocks, &chain.best_tip) {
        Some(c) => c.clone(),
        None => return Err(owned("current best tip is missing")),
    };
    let ghost inserted = *chain;
    let moved = better_tip(&stored_for_choice, &current);
    if moved {
        chain.best_tip = hash.clone();
        proof {
            lemma_wf_new_tip(inserted, *chain);
        }
        prune_mempool(chain);
    }
    let ghost switched = *chain;
    proof {
        if start.tip_is_best() {
            lemma_wf_keys(inserted);
            assert(inserted.best() == start.best());
            assert forall|x: Seq<char>| #[trigger] switched.knows(x) implies !spec_better_tip(
                switched.stored(x),
                switched.best(),
            ) by {
                assert(inserted.knows(x));
                if moved {
                    assert(switched.best() == sb);
                    if x == hash@ {
                        lemma_better_tip_irreflexive(sb);
                    } else {
                        assert(start.knows(x));
                        assert(switched.stored(x) == start.stored(x));
                        if spec_better_tip(switched.stored(x), sb) {
                            lemma_better_tip_transitive(switched.stored(x), sb, start.best());
                        }
                    }
                } else {
                    assert(switched.best() == start.best());
                    if x != hash@ {
                        assert(start.knows(x));
                        assert(switched.stored(x) == start.stored(x));
                    }
                }
            }
        }
    }
    let children = match orphan_map_shift_remove(&mut chain.orphan_blocks, &hash) {
        Some(c) => c,
        None => Vec::new(),
    };
    proof {
        lemma_wf_keys(switched);
        lemma_wf_frame(switched, *chain);
        assert(grows(inserted, switched));
        assert(grows(start, *chain));
        let e = orphan_entries(switched.orphan_blocks);
        if has_key(e, hash@) {
            lemma_orphan_total_remove(e, index_of(e, hash@));
        }
        lemma_remove_entry(e, hash@);
        assert(start.best() == chain.stored(start.best_tip@));
        if start.tip_is_best() {
            assert forall|x: Seq<char>| #[trigger] chain.knows(x) implies !spec_better_tip(chain.stored(x), chain.best()) by {
                assert(switched.knows(x));
            }
        }
    }
    Ok(Some(children))
}

/// A stored block's replayed balances and ids are fixed by the stored blocks:
/// a store that keeps the block and its ancestors holds the same ones.
pub proof fn lemma_caches_stable(a: ChainState, b: ChainState, h: Seq<char>)
    requires
        a.wf(),
        b.wf(),
        grows(a, b),
        a.knows(h),
    ensures
        b.balances_at(h).entries() == a.balances_at(h).entries(),
        b.ids_at(h).items() == a.ids_at(h).items(),
    decreases a.stored(h).height,
{
    lemma_wf_block(a, h);
    lemma_wf_block(b, h);
    let sb = a.stored(h);
    assert(b.stored(h) == sb);
    if sb.height > 0 {
        let p = sb.block.header.previous_hash@;
        lemma_caches_stable(a, b, p);
        assert(child_replay(a, p, sb.block) == child_replay(b, p, sb.block));
    }
}

/// Checking a block as the child of a stored block gives the same outcome on
/// a store that keeps that block and its ancestors.
pub proof fn lemma_outcome_stable(a: ChainState, b: ChainState, block: Block, p: Seq<char>, difficulty: u32)
    requires
        a.wf(),
        b.wf(),
        grows(a, b),
        a.knows(p),
    ensures
        extend_outcome(b, block, b.stored(p), difficulty) == extend_outcome(a, block, a.stored(p), difficulty),
{
    lemma_wf_block(a, p);
    lemma_wf_block(b, p);
    lemma_caches_stable(a, b, p);
    assert(a.stored(p).block.hash@ == p);
}

/// The mempool and the selected block after connecting `added` in order,
/// from `pool` and `tip`: each connected block that is better than the tip so
/// far becomes the tip, and the transfers its branch holds leave the pool.
pub open spec fn pool_walk(
    c: ChainState,
    pool: Seq<(Seq<char>, SignedTransaction)>,
    tip: StoredBlock,
    added: Seq<Block>,
) -> (Seq<(Seq<char>, SignedTransaction)>, StoredBlock)
    decreases added.len(),
{
    if added.len() == 0 {
        (pool, tip)
    } else {
        let (p, t) = pool_walk(c, pool, tip, added.drop_last());
        let s = c.stored(added.last().hash@);
        if spec_better_tip(s, t) {
            (unlisted(p, c.ids_at(added.last().hash@).items()), s)
        } else {
            (p, t)
        }
    }
}

/// The walk over stored blocks reads only what later stores keep.
proof fn lemma_walk_stable(
    a: ChainState,
    b: ChainState,
    pool: Seq<(Seq<char>, SignedTransaction)>,
    tip: StoredBlock,
    added: Seq<Block>,
)
    requires
        a.wf(),
        b.wf(),
        grows(a, b),
        forall|i: int| 0 <= i < added.len() ==> a.knows(#[trigger] added[i].hash@),
    ensures
        pool_walk(b, pool, tip, added) == pool_walk(a, pool, tip, added),
    decreases added.len(),
{
    if added.len() > 0 {
        let init = added.drop_last();
        assert forall|i: int| 0 <= i < init.len() implies a.knows(#[trigger] init[i].hash@) by {
            assert(init[i] == added[i]);
        }
        lemma_walk_stable(a, b, pool, tip, init);
        let h = added.last().hash@;
        assert(a.knows(added[added.len() - 1].hash@));
        lemma_caches_stable(a, b, h);
    }
}

/// The walk carried over one more connected block.
proof fn lemma_walk_step(
    before: ChainState,
    after: ChainState,
    pool: Seq<(Seq<char>, SignedTransaction)>,
    tip: StoredBlock,
    added: Seq<Block>,
    block: Block,
)
    requires
        before.wf(),
        after.wf(),
        grows(before, after),
        forall|i: int| 0 <= i < added.len() ==> before.knows(#[trigger] added[i].hash@),
        pool_walk(before, pool, tip, added) == (before.pool(), before.best()),
        after.knows(block.hash@),
        (after.best_tip@ != before.best_tip@) == spec_better_tip(after.stored(block.hash@), before.best()),
        after.best_tip@ == before.best_tip@ ==> after.pool() == before.pool(),
        after.best_tip@ != before.best_tip@ ==> after.best_tip@ == block.hash@ && after.pool() == unlisted(
            before.pool(),
            after.canonical_ids(),
        ),
    ensures
        pool_walk(after, pool, tip, added.push(block)) == (after.pool(), after.best()),
{
    lemma_walk_stable(before, after, pool, tip, added);
    assert(added.push(block).drop_last() =~= added);
    lemma_wf_keys(before);
    lemma_wf_keys(after);
    lemma_wf_block(after, after.best_tip@);
}

/// What `add_block` keeps of the pool, carried over one more connected block.
proof fn lemma_pool_step(start: ChainState, before: ChainState, after: ChainState, hash: Seq<char>)
    requires
        start.wf(),
        before.wf(),
        after.wf(),
        grows(start, before),
        grows(before, after),
        before.best_tip@ == start.best_tip@ ==> before.pool() == start.pool(),
        before.best_tip@ != start.best_tip@ ==> pool_clean(before),
        pool_clean(start) ==> pool_clean(before),
        pool_kept(start, before),
        after.best_tip@ == before.best_tip@ ==> after.pool() == before.pool(),
        after.best_tip@ != before.best_tip@ ==> after.best_tip@ == hash && after.pool() == unlisted(
            before.pool(),
            after.canonical_ids(),
        ),
        !start.knows(hash),
    ensures
        after.best_tip@ == start.best_tip@ ==> after.pool() == start.pool(),
        after.best_tip@ != start.best_tip@ ==> pool_clean(after),
        pool_clean(start) ==> pool_clean(after),
        pool_kept(start, after),
{
    lemma_wf_keys(start);
    lemma_wf_keys(before);
    lemma_wf_keys(after);
    if after.best_tip@ == before.best_tip@ {
        let t = before.best_tip@;
        lemma_caches_stable(before, after, t);
        lemma_wf_block(before, t);
        lemma_wf_block(after, t);
        assert(after.canonical_ids() == before.canonical_ids());
    } else {
        assert(after.best_tip@ != start.best_tip@);
        lemma_unlisted_entries(before.pool(), after.canonical_ids());
        assert forall|i: int| 0 <= i < after.pool().len() implies !after.canonical_ids().contains(#[trigger] after.pool()[i].0) by {
            let u = unlisted(before.pool(), after.canonical_ids());
            assert(!after.canonical_ids().contains(u[i].0));
        }
        assert forall|i: int| 0 <= i < after.pool().len() implies start.pool().contains(#[trigger] after.pool()[i]) by {
            let u = unlisted(before.pool(), after.canonical_ids());
            assert(!after.canonical_ids().contains(u[i].0));
            assert(before.pool().contains(after.pool()[i]));
            let k = choose|k: int| 0 <= k < before.pool().len() && before.pool()[k] == after.pool()[i];
            assert(start.pool().contains(before.pool()[k]));
        }
    }
}

/// Whether every block waiting for a stored block under its own parent's
/// hash is still to be tried, stored, or refused as a child of that block.
#[verifier::opaque]
pub open spec fn children_settled(
    e: Seq<(Seq<char>, Vec<Block>)>,
    c: ChainState,
    added: Seq<Block>,
    stack: Seq<Block>,
    difficulty: u32,
) -> bool {
    forall|i: int, j: int|
        #![trigger waiting(e, added[i].hash@)[j]]
        0 <= i < added.len() && 0 <= j < waiting(e, added[i].hash@).len() && waiting(e, added[i].hash@)[j].header.previous_hash@
            == added[i].hash@ ==> stack.contains(waiting(e, added[i].hash@)[j]) || c.knows(waiting(e, added[i].hash@)[j].hash@)
            || extend_outcome(c, waiting(e, added[i].hash@)[j], c.stored(added[i].hash@), difficulty) is Rejected
}

/// Whether each block of `added` after the first is one that waited, among
/// the orphans `e`, for an earlier block of `added`, with `par` naming that
/// earlier block.
#[verifier::opaque]
pub open spec fn waits_after(e: Seq<(Seq<char>, Vec<Block>)>, added: Seq<Block>, par: Seq<int>) -> bool {
    &&& par.len() == added.len()
    &&& forall|i: int| #![trigger par[i]] 1 <= i < added.len() ==> 0 <= par[i] < i && waiting(
        e,
        added[par[i]].hash@,
    ).contains(added[i])
}

/// Whether each block of `stack` waited, among the orphans `e`, for the block
/// of `added` that `spar` names.
#[verifier::opaque]
pub open spec fn stack_waits(
    e: Seq<(Seq<char>, Vec<Block>)>,
    added: Seq<Block>,
    stack: Seq<Block>,
    spar: Seq<int>,
) -> bool {
    &&& spar.len() == stack.len()
    &&& forall|s: int| #![trigger spar[s]] 0 <= s < stack.len() ==> 0 <= spar[s] < added.len() && waiting(
        e,
        added[spar[s]].hash@,
    ).contains(stack[s])
}

/// Whether the `i`-th block of `added` waited, among the orphans `e`, for an
/// earlier block of `added`.
pub open spec fn waited_earlier(e: Seq<(Seq<char>, Vec<Block>)>, added: Seq<Block>, i: int) -> bool {
    exists|k: int| 0 <= k < i && #[trigger] waiting(e, added[k].hash@).contains(added[i])
}

/// The named earlier blocks show that each block after the first waited for
/// an earlier one.
proof fn lemma_waits_after_exists(e: Seq<(Seq<char>, Vec<Block>)>, added: Seq<Block>, par: Seq<int>)
    requires
        waits_after(e, added, par),
    ensures
        forall|i: int| 1 <= i < added.len() ==> #[trigger] waited_earlier(e, added, i),
{
    reveal(waits_after);
    assert forall|i: int| 1 <= i < added.len() implies #[trigger] waited_earlier(e, added, i) by {
        let k = par[i];
        assert(0 <= k < i && waiting(e, added[k].hash@).contains(added[i]));
    }
}

/// One more waiting block tried by `add_block` keeps each connected block
/// after the first and each block still to try tied to the block it waited for.
proof fn lemma_wait_order_step(
    e: Seq<(Seq<char>, Vec<Block>)>,
    ba: Seq<Block>,
    aa: Seq<Block>,
    par: Seq<int>,
    sb: Seq<Block>,
    sa: Seq<Block>,
    spar: Seq<int>,
    c: Block,
    g: Seq<Block>,
    kind: int,
) -> (res: (Seq<int>, Seq<int>))
    requires
        sb.len() > 0,
        c == sb.last(),
        waits_after(e, ba, par),
        stack_waits(e, ba, sb, spar),
        kind == 0 ==> aa == ba.push(c) && sa == sb.drop_last() + g.reverse() && g == waiting(e, c.hash@),
        kind != 0 ==> aa == ba && sa == sb.drop_last(),
    ensures
        waits_after(e, aa, res.0),
        stack_waits(e, aa, sa, res.1),
{
    reveal(waits_after);
    reveal(stack_waits);
    let n = ba.len() as int;
    let s0 = sb.drop_last();
    let k = spar[sb.len() - 1];
    if kind == 0 {
        let par2 = par.push(k);
        let spar2 = spar.drop_last() + Seq::new(g.len(), |x: int| n);
        assert forall|i: int| #![trigger par2[i]] 1 <= i < aa.len() implies 0 <= par2[i] < i && waiting(
            e,
            aa[par2[i]].hash@,
        ).contains(aa[i]) by {
            if i < n {
                assert(par2[i] == par[i]);
                assert(aa[par[i]] == ba[par[i]]);
                assert(aa[i] == ba[i]);
            } else {
                assert(par2[i] == k);
                assert(aa[k] == ba[k]);
                assert(aa[i] == c);
                assert(sb[sb.len() - 1] == c);
            }
        }
        assert forall|s: int| #![trigger spar2[s]] 0 <= s < sa.len() implies 0 <= spar2[s] < aa.len() && waiting(
            e,
            aa[spar2[s]].hash@,
        ).contains(sa[s]) by {
            if s < s0.len() {
                assert(spar2[s] == spar[s]);
                assert(sa[s] == sb[s]);
                assert(aa[spar[s]] == ba[spar[s]]);
            } else {
                let j = g.len() - 1 - (s - s0.len());
                assert(spar2[s] == n);
                assert(aa[n] == c);
                assert(sa[s] == g[j]);
                assert(waiting(e, c.hash@)[j] == sa[s]);
            }
        }
        (par2, spar2)
    } else {
        let spar2 = spar.drop_last();
        assert forall|s: int| #![trigger spar2[s]] 0 <= s < sa.len() implies 0 <= spar2[s] < aa.len() && waiting(
            e,
            aa[spar2[s]].hash@,
        ).contains(sa[s]) by {
            assert(spar2[s] == spar[s]);
            assert(sa[s] == sb[s]);
        }
        (par, spar2)
    }
}

/// One more waiting block tried by `add_block` keeps every waiting child
/// settled: connected, known already, or refused with a refusal that stays.
#[verifier::spinoff_prover]
proof fn lemma_children_step(
    e: Seq<(Seq<char>, Vec<Block>)>,
    before: ChainState,
    after: ChainState,
    ba: Seq<Block>,
    aa: Seq<Block>,
    sb: Seq<Block>,
    sa: Seq<Block>,
    c: Block,
    g: Seq<Block>,
    difficulty: u32,
    kind: int,
)
    requires
        before.wf(),
        after.wf(),
        grows(before, after),
        sb.len() > 0,
        c == sb.last(),
        children_settled(e, before, ba, sb, difficulty),
        forall|i: int| 0 <= i < ba.len() ==> before.knows(#[trigger] ba[i].hash@),
        kind == 0 ==> aa == ba.push(c) && sa == sb.drop_last() + g.reverse() && g == waiting(e, c.hash@)
            && after.knows(c.hash@),
        kind == 1 ==> aa == ba && sa == sb.drop_last() && after == before && before.knows(c.hash@),
        kind == 2 ==> aa == ba && sa == sb.drop_last() && after == before && (before.knows(c.header.previous_hash@)
            ==> extend_outcome(before, c, before.stored(c.header.previous_hash@), difficulty) is Rejected),
        0 <= kind <= 2,
    ensures
        children_settled(e, after, aa, sa, difficulty),
{
    reveal(children_settled);
    let s0 = sb.drop_last();
    assert forall|i: int, j: int|
        #![trigger waiting(e, aa[i].hash@)[j]]
        0 <= i < aa.len() && 0 <= j < waiting(e, aa[i].hash@).len() && waiting(e, aa[i].hash@)[j].header.previous_hash@
            == aa[i].hash@ implies sa.contains(waiting(e, aa[i].hash@)[j]) || after.knows(waiting(e, aa[i].hash@)[j].hash@)
            || extend_outcome(after, waiting(e, aa[i].hash@)[j], after.stored(aa[i].hash@), difficulty) is Rejected by {
        let b = waiting(e, aa[i].hash@)[j];
        if i < ba.len() {
            assert(aa[i] == ba[i]);
            let k = ba[i].hash@;
            assert(waiting(e, ba[i].hash@)[j] == b);
            assert(before.knows(k));
            if sb.contains(b) {
                let s = choose|s: int| 0 <= s < sb.len() && sb[s] == b;
                if s < s0.len() {
                    assert(s0[s] == b);
                    if kind == 0 {
                        assert(sa[s] == b);
                    } else {
                        assert(sa[s] == b);
                    }
                } else {
                    assert(b == c);
                    if kind == 2 {
                        assert(before.knows(c.header.previous_hash@));
                    }
                }
            } else if before.knows(b.hash@) {
            } else {
                lemma_outcome_stable(before, after, b, k, difficulty);
            }
        } else {
            assert(kind == 0);
            assert(aa[i] == c);
            assert(b == g[j]);
            assert(sa[s0.len() + (g.len() - 1 - j)] == g[j]);
        }
    }
}

/// Tip progress and block growth compose over successive steps.
proof fn lemma_progress_chain(a: ChainState, b: ChainState, c: ChainState)
    requires
        a.wf(),
        b.wf(),
        grows(a, b),
        grows(b, c),
        tip_not_worse(a, b),
        tip_not_worse(b, c),
    ensures
        grows(a, c),
        tip_not_worse(a, c),
{
    lemma_wf_keys(a);
    lemma_wf_keys(b);
    assert(b.stored(a.best_tip@) == a.best());
    assert(c.stored(b.best_tip@) == b.best());
    if c.best_tip@ != a.best_tip@ {
        if c.best_tip@ == b.best_tip@ {
            assert(c.best() == b.best());
        } else if b.best_tip@ == a.best_tip@ {
            assert(b.best() == a.best());
        } else {
            lemma_better_tip_transitive(c.best(), b.best(), a.best());
        }
    }
}

/// Moves all blocks of `from` onto `to`, last first.
fn push_reversed(to: &mut Vec<Block>, from: Vec<Block>)
    ensures
        final(to)@ == old(to)@ + from@.reverse(),
{
    let mut from = from;
    let ghost all = from@;
    let ghost base = to@;
    while from.len() > 0
        invariant
            from@ == all.take(from@.len() as int),
            from@.len() <= all.len(),
            to@ == base + all.skip(from@.len() as int).reverse(),
        decreases from@.len(),
    {
        let ghost n = from@.len();
        let b = from.pop().unwrap();
        to.push(b);
        assert(b == all[n - 1]);
        assert(from@ =~= all.take(n - 1));
        assert(all.skip(n - 1).reverse() =~= all.skip(n as int).reverse().push(all[n - 1]));
        assert(to@ =~= base + all.skip(n - 1).reverse());
    }
    assert(all.skip(0) =~= all);
}

/// Stores a received block: a duplicate changes nothing; a structurally
/// valid block with an unknown parent waits as an orphan (once); otherwise the
/// block is checked against its parent and stored, the tip moves if it is
/// better, and the orphans waiting for it (and for them, in turn) are
/// connected, those that fail being listed with their error. Every block that
/// was waiting for a block stored here ends up stored or listed as rejected,
/// and every other stored block and every rejected one was waiting before.
/// The connected blocks are listed in the order they were stored, each after
/// the first being one that waited for a block listed before it.
/// Whenever the tip moves, the pending transfers that the new canonical
/// branch holds leave the mempool.
#[verifier::rlimit(100)]
#[verifier::spinoff_prover]
pub fn add_block(chain: &mut ChainState, block: Block, difficulty: u32) -> (res: Result<BlockAddOutcome, String>)
    requires
        old(chain).wf(),
    ensures
        final(chain).wf(),
        grows(*old(chain), *final(chain)),
        tip_not_worse(*old(chain), *final(chain)),
        old(chain).tip_is_best() ==> final(chain).tip_is_best(),
        res matches Ok(o) ==> o.old_tip@ == old(chain).best_tip@ && o.new_tip@ == final(chain).best_tip@,
        res matches Ok(o) ==> forall|i: int| 0 <= i < o.added_blocks@.len() ==> final(chain).knows(
            #[trigger] o.added_blocks@[i].hash@,
        ),
        res matches Ok(o) ==> forall|i: int, j: int| 0 <= i < j < o.added_blocks@.len() ==> #[trigger] o.added_blocks@[i].hash@
            != #[trigger] o.added_blocks@[j].hash@,
        res matches Ok(o) ==> forall|i: int| 1 <= i < o.added_blocks@.len() ==> #[trigger] waited_earlier(
            orphan_entries(old(chain).orphan_blocks),
            o.added_blocks@,
            i,
        ),
        res matches Ok(o) ==> (o.status == BlockAddStatus::Added ==> forall|i: int| 0 <= i < o.added_blocks@.len()
            ==> !has_key(orphan_entries(final(chain).orphan_blocks), #[trigger] o.added_blocks@[i].hash@)),
        old(chain).knows(block.hash@) ==> (res matches Ok(o) && o.status == BlockAddStatus::Duplicate
            && o.added_blocks@.len() == 0 && o.rejected_orphans@.len() == 0 && *final(chain) == *old(chain)),
        final(chain).best_tip@ == old(chain).best_tip@ ==> final(chain).pool() == old(chain).pool(),
        final(chain).best_tip@ != old(chain).best_tip@ ==> pool_clean(*final(chain)),
        pool_clean(*old(chain)) ==> pool_clean(*final(chain)),
        pool_kept(*old(chain), *final(chain)),
        res matches Ok(o) ==> (o.status == BlockAddStatus::Added ==> pool_walk(
            *final(chain),
            old(chain).pool(),
            old(chain).best(),
            o.added_blocks@,
        ) == (final(chain).pool(), final(chain).best())),
        res matches Ok(o) ==> (o.status == BlockAddStatus::Added ==> forall|h: Seq<char>| #[trigger] final(chain).knows(h)
            ==> old(chain).knows(h) || has_hash(o.added_blocks@, h)),
        res matches Ok(o) ==> (o.status == BlockAddStatus::Added ==> forall|i: int, j: int|
            #![trigger waiting(orphan_entries(old(chain).orphan_blocks), o.added_blocks@[i].hash@)[j]]
            0 <= i < o.added_blocks@.len() && 0 <= j < waiting(
                orphan_entries(old(chain).orphan_blocks),
                o.added_blocks@[i].hash@,
            ).len() && waiting(orphan_entries(old(chain).orphan_blocks), o.added_blocks@[i].hash@)[j].header.previous_hash@
                == o.added_blocks@[i].hash@ ==> final(chain).knows(
                waiting(orphan_entries(old(chain).orphan_blocks), o.added_blocks@[i].hash@)[j].hash@,
            ) || extend_outcome(
                *final(chain),
                waiting(orphan_entries(old(chain).orphan_blocks), o.added_blocks@[i].hash@)[j],
                final(chain).stored(o.added_blocks@[i].hash@),
                difficulty,
            ) is Rejected),
        !old(chain).knows(block.hash@) && basic_block_error(block, difficulty) is Some ==> result_agrees(
            res,
            Replay::Rejected(basic_block_error(block, difficulty)),
        ) && *final(chain) == *old(chain),
        !old(chain).knows(block.hash@) && basic_block_error(block, difficulty) is None && !old(chain).knows(
            block.header.previous_hash@,
        ) ==> (res matches Ok(o) && o.status == BlockAddStatus::Orphan && o.added_blocks@.len() == 0 && {
            &&& final(chain).blocks == old(chain).blocks
            &&& final(chain).best_tip == old(chain).best_tip
            &&& final(chain).mempool == old(chain).mempool
            &&& orphan_holds(orphan_entries(final(chain).orphan_blocks), block.hash@)
            &&& orphan_holds(orphan_entries(old(chain).orphan_blocks), block.hash@) ==> final(chain).orphan_blocks
                == old(chain).orphan_blocks
            &&& !orphan_holds(orphan_entries(old(chain).orphan_blocks), block.hash@) ==> orphan_lists(
                orphan_entries(final(chain).orphan_blocks),
            ) == orphans_after_wait(orphan_entries(old(chain).orphan_blocks), block)
        }),
        !old(chain).knows(block.hash@) && basic_block_error(block, difficulty) is None && old(chain).knows(
            block.header.previous_hash@,
        ) ==> {
            let outcome = extend_outcome(*old(chain), block, old(chain).stored(block.header.previous_hash@), difficulty);
            &&& outcome is Rejected ==> result_agrees(res, outcome) && *final(chain) == *old(chain)
            &&& outcome is Applied ==> (res matches Ok(o) && o.status == BlockAddStatus::Added
                && final(chain).knows(block.hash@) && o.added_blocks@.len() >= 1 && o.added_blocks@[0] == block)
        },
        res matches Ok(o) ==> (o.status == BlockAddStatus::Added ==> (forall|i: int, j: int|
            #![trigger waiting(orphan_entries(old(chain).orphan_blocks), o.added_blocks@[i].hash@)[j]]
            0 <= i < o.added_blocks@.len() && 0 <= j < waiting(
                orphan_entries(old(chain).orphan_blocks),
                o.added_blocks@[i].hash@,
            ).len() ==> final(chain).knows(
                waiting(orphan_entries(old(chain).orphan_blocks), o.added_blocks@[i].hash@)[j].hash@,
            ) || rejects(
                o.rejected_orphans@,
                waiting(orphan_entries(old(chain).orphan_blocks), o.added_blocks@[i].hash@)[j].hash@,
            ))),
        res matches Ok(o) ==> forall|i: int| 1 <= i < o.added_blocks@.len() ==> orphan_holds(
            orphan_entries(old(chain).orphan_blocks),
            #[trigger] o.added_blocks@[i].hash@,
        ),
        res matches Ok(o) ==> forall|r: int| 0 <= r < o.rejected_orphans@.len() ==> orphan_holds(
            orphan_entries(old(chain).orphan_blocks),
            #[trigger] o.rejected_orphans@[r].0@,
        ),
{
    let ghost start = *chain;
    proof { lemma_wf_keys(start); }
    let old_tip = chain.best_tip.clone();
    if block_map_contains(&chain.blocks, &block.hash) {
        let new_tip = old_tip.clone();
        return Ok(BlockAddOutcome {
            status: BlockAddStatus::Duplicate,
            added_blocks: Vec::new(),
            rejected_orphans: Vec::new(),
            old_tip,
            new_tip,
        });
    }
    validate_basic_block(&block, difficulty)?;
    if !block_map_contains(&chain.blocks, &block.header.previous_hash) {
        let previous_hash = block.header.previous_hash.clone();
        if !orphan_contains(chain, &block.hash) {
            let ghost e0 = orphan_entries(chain.orphan_blocks);
            let ghost bh = block.hash@;
            let ghost b = block;
            orphan_map_push(&mut chain.orphan_blocks, previous_hash, block);
            proof {
                let lists0 = orphan_lists(e0);
                let e1 = orphan_entries(chain.orphan_blocks);
                let k = b.header.previous_hash@;
                let newlist = if has_key(e0, k) { e0[index_of(e0, k)].1@.push(b) } else { seq![b] };
                lemma_store_entry(lists0, k, newlist);
                let lists1 = orphan_lists(e1);
                assert(has_key(lists1, k));
                let i = index_of(lists1, k);
                assert(lists1[i].1 == e1[i].1@);
                assert(lookup(lists1, k) == Some(newlist));
                assert(e1[i].1@ == newlist);
                assert(newlist[newlist.len() - 1] == b);
                assert(e1[i].1@[newlist.len() - 1].hash@ == bh);
                lemma_wf_frame(start, *chain);
            }
        }
        proof {
            if start.tip_is_best() {
                assert forall|x: Seq<char>| #[trigger] chain.knows(x) implies !spec_better_tip(
                    chain.stored(x),
                    chain.best(),
                ) by {
                    assert(start.knows(x));
                }
            }
        }
        let new_tip = old_tip.clone();
        return Ok(BlockAddOutcome {
            status: BlockAddStatus::Orphan,
            added_blocks: Vec::new(),
            rejected_orphans: Vec::new(),
            old_tip,
            new_tip,
        });
    }
    let mut outcome = BlockAddOutcome {
        status: BlockAddStatus::Added,
        added_blocks: Vec::new(),
        rejected_orphans: Vec::new(),
        old_tip,
        new_tip: String::new(),
    };
    let ghost root = block;
    let ghost start_e = orphan_entries(start.orphan_blocks);
    let first = connect_one(chain, block, difficulty, &mut outcome.added_blocks)?;
    let mut stack: Vec<Block> = Vec::new();
    let ghost mut par: Seq<int> = seq![0int];
    let ghost mut spar: Seq<int> = Seq::empty();
    if let Some(children) = first {
        let ghost g = children@;
        push_reversed(&mut stack, children);
        proof {
            assert(stack@ =~= g.reverse());
            spar = Seq::new(g.len(), |x: int| 0int);
            assert(stack_waits(start_e, outcome.added_blocks@, stack@, spar)) by {
                reveal(stack_waits);
                assert forall|s: int| #![trigger spar[s]] 0 <= s < stack@.len() implies 0 <= spar[s]
                    < outcome.added_blocks@.len() && waiting(start_e, outcome.added_blocks@[spar[s]].hash@).contains(
                    stack@[s],
                ) by {
                    assert(outcome.added_blocks@[0] == root);
                    assert(stack@[s] == g[g.len() - 1 - s]);
                    assert(waiting(start_e, root.hash@)[g.len() - 1 - s] == stack@[s]);
                }
            }
            assert(waits_after(start_e, outcome.added_blocks@, par)) by {
                reveal(waits_after);
            }
            lemma_wf_keys(start);
            assert(start.pool().len() >= 0);
            assert(pool_kept(start, start)) by {
                assert forall|i: int| 0 <= i < start.pool().len() implies start.pool().contains(#[trigger] start.pool()[i]) by {}
            }
            lemma_pool_step(start, start, *chain, root.hash@);
            assert(outcome.added_blocks@ =~= Seq::<Block>::empty().push(root));
            lemma_walk_step(start, *chain, start.pool(), start.best(), Seq::empty(), root);
            assert forall|h: Seq<char>| #[trigger] chain.knows(h) implies start.knows(h) || has_hash(outcome.added_blocks@, h) by {
                if !start.knows(h) {
                    assert(outcome.added_blocks@[0].hash@ == h);
                }
            }
            assert(children_settled(start_e, *chain, outcome.added_blocks@, stack@, difficulty)) by {
                reveal(children_settled);
                assert forall|i: int, j: int|
                    #![trigger waiting(start_e, outcome.added_blocks@[i].hash@)[j]]
                    0 <= i < outcome.added_blocks@.len() && 0 <= j < waiting(start_e, outcome.added_blocks@[i].hash@).len()
                    implies stack@.contains(waiting(start_e, outcome.added_blocks@[i].hash@)[j]) by {
                    assert(outcome.added_blocks@[i] == root);
                    assert(stack@[g.len() - 1 - j] == g[j]);
                }
            }
            assert forall|s: int| 0 <= s < stack@.len() implies orphan_holds(start_e, #[trigger] stack@[s].hash@) by {
                assert(stack@[s] == g[g.len() - 1 - s]);
                lemma_waiting_held(start_e, root.hash@, g.len() - 1 - s);
            }
            assert forall|i: int, j: int|
                #![trigger waiting(start_e, outcome.added_blocks@[i].hash@)[j]]
                0 <= i < outcome.added_blocks@.len() && 0 <= j < waiting(start_e, outcome.added_blocks@[i].hash@).len()
                implies stack@.contains(waiting(start_e, outcome.added_blocks@[i].hash@)[j]) by {
                assert(outcome.added_blocks@[i] == root);
                assert(stack@[g.len() - 1 - j] == g[j]);
            }
            assert forall|k: Seq<char>| !has_hash(outcome.added_blocks@, k) implies waiting(
                orphan_entries(chain.orphan_blocks),
                k,
            ) == waiting(start_e, k) by {
                assert(outcome.added_blocks@[0].hash@ == root.hash@);
                lemma_wf_keys(start);
                lemma_waiting_remove(start_e, root.hash@, k);
            }
        }
    }
    proof { lemma_orphan_total_nonneg(orphan_entries(chain.orphan_blocks)); }
    while stack.len() > 0
        invariant
            start.wf(),
            chain.wf(),
            start_e == orphan_entries(start.orphan_blocks),
            grows(start, *chain),
            tip_not_worse(start, *chain),
            start.tip_is_best() ==> chain.tip_is_best(),
            chain.knows(root.hash@),
            forall|i: int| 0 <= i < outcome.added_blocks@.len() ==> chain.knows(#[trigger] outcome.added_blocks@[i].hash@),
            forall|i: int| 0 <= i < outcome.added_blocks@.len() ==> !has_key(
                orphan_entries(chain.orphan_blocks),
                #[trigger] outcome.added_blocks@[i].hash@,
            ),
            outcome.added_blocks@.len() >= 1,
            outcome.added_blocks@[0] == root,
            forall|i: int, j: int| 0 <= i < j < outcome.added_blocks@.len() ==> #[trigger] outcome.added_blocks@[i].hash@
                != #[trigger] outcome.added_blocks@[j].hash@,
            waits_after(start_e, outcome.added_blocks@, par),
            stack_waits(start_e, outcome.added_blocks@, stack@, spar),
            outcome.old_tip@ == start.best_tip@,
            outcome.status == BlockAddStatus::Added,
            orphan_total(orphan_entries(chain.orphan_blocks)) >= 0,
            forall|k: Seq<char>| !has_hash(outcome.added_blocks@, k) ==> waiting(orphan_entries(chain.orphan_blocks), k)
                == waiting(start_e, k),
            forall|i: int, j: int|
                #![trigger waiting(start_e, outcome.added_blocks@[i].hash@)[j]]
                0 <= i < outcome.added_blocks@.len() && 0 <= j < waiting(start_e, outcome.added_blocks@[i].hash@).len()
                ==> stack@.contains(waiting(start_e, outcome.added_blocks@[i].hash@)[j]) || chain.knows(
                waiting(start_e, outcome.added_blocks@[i].hash@)[j].hash@,
            ) || rejects(outcome.rejected_orphans@, waiting(start_e, outcome.added_blocks@[i].hash@)[j].hash@),
            forall|s: int| 0 <= s < stack@.len() ==> orphan_holds(start_e, #[trigger] stack@[s].hash@),
            forall|r: int| 0 <= r < outcome.rejected_orphans@.len() ==> orphan_holds(
                start_e,
                #[trigger] outcome.rejected_orphans@[r].0@,
            ),
            forall|i: int| 1 <= i < outcome.added_blocks@.len() ==> orphan_holds(
                start_e,
                #[trigger] outcome.added_blocks@[i].hash@,
            ),
            chain.best_tip@ == start.best_tip@ ==> chain.pool() == start.pool(),
            chain.best_tip@ != start.best_tip@ ==> pool_clean(*chain),
            pool_clean(start) ==> pool_clean(*chain),
            pool_kept(start, *chain),
            pool_walk(*chain, start.pool(), start.best(), outcome.added_blocks@) == (chain.pool(), chain.best()),
            forall|h: Seq<char>| #[trigger] chain.knows(h) ==> start.knows(h) || has_hash(outcome.added_blocks@, h),
            children_settled(start_e, *chain, outcome.added_blocks@, stack@, difficulty),
        decreases orphan_total(orphan_entries(chain.orphan_blocks)) + stack@.len(),
    {
        let ghost s_before = stack@;
        let child = stack.pop().unwrap();
        let ghost c = child;
        let ghost s0 = stack@;
        assert(s0 =~= s_before.drop_last());
        assert(c == s_before[s_before.len() - 1]);
        let child_hash = child.hash.clone();
        let ghost before = *chain;
        let ghost before_added = outcome.added_blocks@;
        let ghost before_rejected = outcome.rejected_orphans@;
        let ghost mut g: Seq<Block> = Seq::empty();
        let ghost mut kind: int = 0;
        proof {
            lemma_wf_keys(before);
        }
        match connect_one(chain, child, difficulty, &mut outcome.added_blocks) {
            Ok(Some(grandchildren)) => {
                proof {
                    g = grandchildren@;
                }
                push_reversed(&mut stack, grandchildren);
            },
            Ok(None) => {
                proof {
                    kind = 1;
                }
            },
            Err(error) => {
                proof {
                    kind = 2;
                    assert(!before.knows(c.hash@));
                    assert(before.knows(c.header.previous_hash@) ==> extend_outcome(
                        before,
                        c,
                        before.stored(c.header.previous_hash@),
                        difficulty,
                    ) is Rejected);
                }
                outcome.rejected_orphans.push((child_hash, error));
            },
        }
        proof {
            lemma_children_step(
                start_e,
                before,
                *chain,
                before_added,
                outcome.added_blocks@,
                s_before,
                stack@,
                c,
                g,
                difficulty,
                kind,
            );
            let (p2, s2) = lemma_wait_order_step(
                start_e,
                before_added,
                outcome.added_blocks@,
                par,
                s_before,
                stack@,
                spar,
                c,
                g,
                kind,
            );
            par = p2;
            spar = s2;
            if kind == 0 {
                lemma_pool_step(start, before, *chain, c.hash@);
                lemma_walk_step(before, *chain, start.pool(), start.best(), before_added, c);
            }
            assert forall|h: Seq<char>| #[trigger] chain.knows(h) implies start.knows(h) || has_hash(
                outcome.added_blocks@,
                h,
            ) by {
                if before.knows(h) {
                    if !start.knows(h) {
                        let i = choose|i: int| 0 <= i < before_added.len() && #[trigger] before_added[i].hash@ == h;
                        assert(outcome.added_blocks@[i] == before_added[i]);
                    }
                } else {
                    assert(outcome.added_blocks@[before_added.len() as int] == c);
                }
            }
        }
        proof {
            lemma_progress_chain(start, before, *chain);
            assert(outcome.added_blocks@[0] == before_added[0]);
            let added_now = outcome.added_blocks@.len() > before_added.len();
            if added_now {
                assert(outcome.added_blocks@ == before_added.push(c));
                assert(stack@ == s0 + g.reverse());
                // the child was not stored before, so nothing had taken its waiting list
                assert(!before.knows(c.hash@));
                assert(!has_hash(before_added, c.hash@)) by {
                    if has_hash(before_added, c.hash@) {
                        let i = choose|i: int| 0 <= i < before_added.len() && #[trigger] before_added[i].hash@ == c.hash@;
                        assert(before.knows(before_added[i].hash@));
                    }
                }
                assert(g == waiting(start_e, c.hash@));
            } else {
                assert(outcome.added_blocks@ == before_added);
                assert(stack@ == s0);
                assert(*chain == before);
            }
            assert forall|i: int| 0 <= i < outcome.added_blocks@.len() implies chain.knows(
                #[trigger] outcome.added_blocks@[i].hash@,
            ) && !has_key(orphan_entries(chain.orphan_blocks), outcome.added_blocks@[i].hash@) by {
                if i < before_added.len() {
                    assert(outcome.added_blocks@[i] == before_added[i]);
                    assert(before.knows(before_added[i].hash@));
                    assert(!has_key(orphan_entries(before.orphan_blocks), before_added[i].hash@));
                }
            }
            assert forall|k: Seq<char>| !has_hash(outcome.added_blocks@, k) implies waiting(
                orphan_entries(chain.orphan_blocks),
                k,
            ) == waiting(start_e, k) by {
                if added_now {
                    assert(outcome.added_blocks@[before_added.len() as int] == c);
                    assert(k != c.hash@);
                    assert(!has_hash(before_added, k)) by {
                        if has_hash(before_added, k) {
                            let i = choose|i: int| 0 <= i < before_added.len() && #[trigger] before_added[i].hash@ == k;
                            assert(outcome.added_blocks@[i] == before_added[i]);
                        }
                    }
                    lemma_waiting_remove(orphan_entries(before.orphan_blocks), c.hash@, k);
                }
            }
            assert forall|s: int| 0 <= s < stack@.len() implies orphan_holds(start_e, #[trigger] stack@[s].hash@) by {
                if s < s0.len() {
                    assert(stack@[s] == s_before[s]);
                } else {
                    let j = g.len() - 1 - (s - s0.len());
                    assert(stack@[s] == g[j]);
                    lemma_waiting_held(start_e, c.hash@, j);
                }
            }
            assert(orphan_holds(start_e, c.hash@)) by {
                assert(s_before[s_before.len() - 1] == c);
            }
            assert forall|r: int| 0 <= r < outcome.rejected_orphans@.len() implies orphan_holds(
                start_e,
                #[trigger] outcome.rejected_orphans@[r].0@,
            ) by {
                if r < before_rejected.len() {
                    assert(outcome.rejected_orphans@[r] == before_rejected[r]);
                }
            }
            assert forall|i: int| 1 <= i < outcome.added_blocks@.len() implies orphan_holds(
                start_e,
                #[trigger] outcome.added_blocks@[i].hash@,
            ) by {
                if i < before_added.len() {
                    assert(outcome.added_blocks@[i] == before_added[i]);
                }
            }
            assert forall|i: int, j: int|
                #![trigger waiting(start_e, outcome.added_blocks@[i].hash@)[j]]
                0 <= i < outcome.added_blocks@.len() && 0 <= j < waiting(start_e, outcome.added_blocks@[i].hash@).len()
                implies stack@.contains(waiting(start_e, outcome.added_blocks@[i].hash@)[j]) || chain.knows(
                waiting(start_e, outcome.added_blocks@[i].hash@)[j].hash@,
            ) || rejects(outcome.rejected_orphans@, waiting(start_e, outcome.added_blocks@[i].hash@)[j].hash@) by {
                let b = waiting(start_e, outcome.added_blocks@[i].hash@)[j];
                if i < before_added.len() {
                    assert(outcome.added_blocks@[i] == before_added[i]);
                    assert(waiting(start_e, before_added[i].hash@)[j] == b);
                    if s_before.contains(b) {
                        let s = choose|s: int| 0 <= s < s_before.len() && s_before[s] == b;
                        if s < s0.len() {
                            assert(stack@[s] == b);
                        } else if added_now {
                            assert(chain.knows(c.hash@));
                        } else if before.knows(c.hash@) {
                        } else {
                            assert(outcome.rejected_orphans@[before_rejected.len() as int].0@ == c.hash@);
                        }
                    } else if before.knows(b.hash@) {
                    } else {
                        let r = choose|r: int| 0 <= r < before_rejected.len() && #[trigger] before_rejected[r].0@ == b.hash@;
                        assert(outcome.rejected_orphans@[r] == before_rejected[r]);
                    }
                } else {
                    assert(added_now);
                    assert(outcome.added_blocks@[i] == c);
                    assert(b == g[j]);
                    assert(stack@[s0.len() + (g.len() - 1 - j)] == g[j]);
                }
            }
            lemma_orphan_total_nonneg(orphan_entries(chain.orphan_blocks));
        }
    }
    proof {
        reveal(children_settled);
        assert(stack@.len() == 0);
        lemma_waits_after_exists(start_e, outcome.added_blocks@, par);
    }
    outcome.new_tip = chain.best_tip.clone();
    Ok(outcome)
}

/// The hashes from block `hash` down `n` parent links, newest first.
pub open spec fn descent(chain: ChainState, hash: Seq<char>, n: nat) -> Seq<Seq<char>>
    decreases n,
{
    if n == 0 {
        seq![hash]
    } else {
        seq![hash] + descent(chain, chain.stored(hash).block.header.previous_hash@, (n - 1) as nat)
    }
}

/// The canonical chain: hashes from genesis up to the selected tip.
pub open spec fn canonical_path(chain: ChainState) -> Seq<Seq<char>> {
    descent(chain, chain.best_tip@, chain.best().height as nat).reverse()
}

/// A copy of a list of strings in reverse order.
fn reversed_strings(v: &Vec<String>) -> (res: Vec<String>)
    ensures
        string_views(res@) == string_views(v@).reverse(),
{
    let n = v.len();
    let mut res: Vec<String> = Vec::new();
    let mut i: usize = 0;
    while i < n
        invariant
            n == v@.len(),
            i <= n,
            res@.len() == i,
            forall|j: int| 0 <= j < i ==> #[trigger] res@[j]@ == v@[n - 1 - j]@,
        decreases n - i,
    {
        res.push(v[n - 1 - i].clone());
        i = i + 1;
    }
    assert(string_views(res@) =~= string_views(v@).reverse());
    res
}

/// The hashes of the canonical chain, genesis first.
pub fn canonical_hashes(chain: &ChainState) -> (res: Vec<String>)
    requires
        chain.wf(),
    ensures
        string_views(res@) == canonical_path(*chain),
{
    proof { lemma_wf_keys(*chain); }
    let ghost top = descent(*chain, chain.best_tip@, chain.best().height as nat);
    let mut hashes: Vec<String> = Vec::new();
    let mut next = chain.best_tip.clone();
    assert(string_views(hashes@) + top =~= top);
    loop
        invariant_except_break
            chain.wf(),
            chain.knows(next@),
            string_views(hashes@) + descent(*chain, next@, chain.stored(next@).height as nat) == top,
        ensures
            string_views(hashes@) == top,
        decreases chain.stored(next@).height,
    {
        match block_map_get(&chain.blocks, &next) {
            None => {
                break;
            },
            Some(stored) => {
                let ghost before = string_views(hashes@);
                proof { lemma_wf_block(*chain, next@); }
                hashes.push(next.clone());
                assert(string_views(hashes@) =~= before.push(next@));
                if stored.height == 0 {
                    assert(string_views(hashes@) =~= before + descent(*chain, next@, 0));
                    break;
                }
                let ghost d = descent(*chain, stored.block.header.previous_hash@, (stored.height - 1) as nat);
                assert(descent(*chain, next@, stored.height as nat) == seq![next@] + d);
                assert(before + (seq![next@] + d) =~= before.push(next@) + d);
                next = stored.block.header.previous_hash.clone();
            },
        }
    }
    reversed_strings(&hashes)
}

/// The blocks of the canonical chain, genesis first.
pub fn canonical_blocks(chain: &ChainState) -> (res: Vec<Block>)
    requires
        chain.wf(),
    ensures
        res@.len() == canonical_path(*chain).len(),
        forall|i: int| 0 <= i < res@.len() ==> #[trigger] res@[i].same_as(chain.stored(canonical_path(*chain)[i]).block),
{
    let hashes = canonical_hashes(chain);
    let mut blocks: Vec<Block> = Vec::new();
    let mut i: usize = 0;
    while i < hashes.len()
        invariant
            chain.wf(),
            string_views(hashes@) == canonical_path(*chain),
            i <= hashes@.len(),
            blocks@.len() == i,
            forall|j: int| 0 <= j < i ==> #[trigger] blocks@[j].same_as(chain.stored(canonical_path(*chain)[j]).block),
        decreases hashes@.len() - i,
    {
        assert(hashes@[i as int]@ == canonical_path(*chain)[i as int]);
        match block_map_get(&chain.blocks, &hashes[i]) {
            Some(stored) => {
                blocks.push(stored.block.clone());
            },
            None => {
                proof { lemma_canonical_known(*chain, i as int); }
                assert(false);
            },
        }
        i = i + 1;
    }
    blocks
}

/// Each link of a descent from a stored block is stored, one level lower each
/// step, and each next link is the previous one's parent.
pub proof fn lemma_descent_at(chain: ChainState, hash: Seq<char>, n: nat, k: int)
    requires
        chain.wf(),
        chain.knows(hash),
        chain.stored(hash).height == n,
        0 <= k <= n,
    ensures
        descent(chain, hash, n).len() == n + 1,
        descent(chain, hash, n)[0] == hash,
        chain.knows(descent(chain, hash, n)[k]),
        chain.stored(descent(chain, hash, n)[k]).height == n - k,
        k < n ==> descent(chain, hash, n)[k + 1] == chain.stored(descent(chain, hash, n)[k]).block.header.previous_hash@,
    decreases n,
{
    lemma_wf_block(chain, hash);
    if n > 0 {
        let p = chain.stored(hash).block.header.previous_hash@;
        let d = descent(chain, p, (n - 1) as nat);
        let full = descent(chain, hash, n);
        assert(full == seq![hash] + d);
        if k > 0 {
            lemma_descent_at(chain, p, (n - 1) as nat, k - 1);
            assert(full[k] == d[k - 1]);
            if k < n {
                assert(full[k + 1] == d[k]);
            }
        } else {
            lemma_descent_at(chain, p, (n - 1) as nat, 0);
            assert(full[1] == d[0]);
        }
    }
}

/// Every hash of the canonical chain is stored.
proof fn lemma_canonical_known(chain: ChainState, i: int)
    requires
        chain.wf(),
        0 <= i < canonical_path(chain).len(),
    ensures
        chain.knows(canonical_path(chain)[i]),
{
    lemma_wf_keys(chain);
    let n = chain.best().height as nat;
    lemma_descent_at(chain, chain.best_tip@, n, 0);
    lemma_descent_at(chain, chain.best_tip@, n, n - i);
    let d = descent(chain, chain.best_tip@, n);
    assert(canonical_path(chain)[i] == d[d.len() - 1 - i]);
}

/// What `select_mempool_transactions` holds after looking at some entries:
/// the transfers picked, and the balances and ids after them.
pub open spec fn select_step(
    acc: (Seq<SignedTransaction>, Seq<(Seq<char>, u64)>, Seq<Seq<char>>),
    tx: SignedTransaction,
    max: nat,
) -> (Seq<SignedTransaction>, Seq<(Seq<char>, u64)>, Seq<Seq<char>>) {
    let (sel, e, ids) = acc;
    if sel.len() >= max || spec_is_reward(tx) || ids.contains(tx.id@) || !spec_valid_normal(tx) || bal(
        e,
        tx.payload.from@,
    ) < tx.payload.amount {
        acc
    } else {
        let e1 = store_entry(e, tx.payload.from@, (bal(e, tx.payload.from@) - tx.payload.amount) as u64);
        (
            sel.push(tx),
            store_entry(e1, tx.payload.to@, (bal(e1, tx.payload.to@) + tx.payload.amount) as u64),
            ids.push(tx.id@),
        )
    }
}

/// Selection over the first `n` mempool entries.
pub open spec fn select_prefix(
    pool: Seq<(Seq<char>, SignedTransaction)>,
    e: Seq<(Seq<char>, u64)>,
    ids: Seq<Seq<char>>,
    max: nat,
    n: nat,
) -> (Seq<SignedTransaction>, Seq<(Seq<char>, u64)>, Seq<Seq<char>>)
    decreases n,
{
    if n == 0 {
        (Seq::empty(), e, ids)
    } else {
        select_step(select_prefix(pool, e, ids, max, (n - 1) as nat), pool[n - 1].1, max)
    }
}

proof fn lemma_select_full_stays(
    pool: Seq<(Seq<char>, SignedTransaction)>,
    e: Seq<(Seq<char>, u64)>,
    ids: Seq<Seq<char>>,
    max: nat,
    n: nat,
    m: nat,
)
    requires
        n <= m,
        select_prefix(pool, e, ids, max, n).0.len() >= max,
    ensures
        select_prefix(pool, e, ids, max, m) == select_prefix(pool, e, ids, max, n),
    decreases m - n,
{
    if n < m {
        lemma_select_full_stays(pool, e, ids, max, n, (m - 1) as nat);
    }
}

/// The ids of a list of transactions.
pub open spec fn tx_ids(txs: Seq<SignedTransaction>) -> Seq<Seq<char>> {
    txs.map_values(|t: SignedTransaction| t.id@)
}

/// Storing under a key leaves every other key's balance and sets that one.
pub(crate) proof fn lemma_bal_store(e: Seq<(Seq<char>, u64)>, k: Seq<char>, v: u64)
    requires
        keys_distinct(e),
    ensures
        keys_distinct(store_entry(e, k, v)),
        forall|a: Seq<char>| #[trigger] bal(store_entry(e, k, v), a) == if a == k { v } else { bal(e, a) },
        sum_values(store_entry(e, k, v)) == sum_values(e) - bal(e, k) + v,
{
    lemma_store_entry(e, k, v);
    lemma_sum_store(e, k, v);
}

/// Selecting transfers replays them: on a branch whose coins leave room for
/// one more, with a reward for `creator` first whose id is new, the block of
/// the reward and the selected transfers (in selection order) applies, giving
/// the selection's balances with the creator's reward added.
pub(crate) proof fn lemma_selection_replays(
    pool: Seq<(Seq<char>, SignedTransaction)>,
    e0: Seq<(Seq<char>, u64)>,
    ids0: Seq<Seq<char>>,
    max: nat,
    n: nat,
    txs: Seq<SignedTransaction>,
    creator: Seq<char>,
)
    requires
        n <= pool.len(),
        keys_distinct(e0),
        sum_values(e0) + 1 <= u64::MAX,
        txs.len() >= 1,
        spec_is_reward(txs[0]),
        reward_transaction_error(txs[0], creator) is None,
        !ids0.contains(txs[0].id@),
        forall|k: int| 1 <= k < txs.len() ==> (#[trigger] txs[k]).id@ != txs[0].id@,
        select_prefix(pool, e0, ids0, max, n).0.len() + 1 <= txs.len(),
        forall|k: int|
            0 <= k < select_prefix(pool, e0, ids0, max, n).0.len() ==> txs[k + 1] == #[trigger] select_prefix(
                pool,
                e0,
                ids0,
                max,
                n,
            ).0[k],
    ensures
        keys_distinct(select_prefix(pool, e0, ids0, max, n).1),
        sum_values(select_prefix(pool, e0, ids0, max, n).1) == sum_values(e0),
        select_prefix(pool, e0, ids0, max, n).2 == ids0 + tx_ids(select_prefix(pool, e0, ids0, max, n).0),
        replay_prefix(e0, ids0, txs, creator, select_prefix(pool, e0, ids0, max, n).0.len() + 1) matches Replay::Applied(
            er,
            ir,
        ) && {
            &&& keys_distinct(er)
            &&& sum_values(er) == sum_values(e0) + 1
            &&& ir == ids0.push(txs[0].id@) + tx_ids(select_prefix(pool, e0, ids0, max, n).0)
            &&& forall|a: Seq<char>| #[trigger] bal(er, a) == bal(select_prefix(pool, e0, ids0, max, n).1, a) + (
                if a == creator { 1int } else { 0int })
        },
    decreases n,
{
    let reward = txs[0];
    if n == 0 {
        let sel = Seq::<SignedTransaction>::empty();
        assert(select_prefix(pool, e0, ids0, max, 0) == (sel, e0, ids0));
        assert(tx_ids(sel) =~= Seq::<Seq<char>>::empty());
        assert(ids0 + tx_ids(sel) =~= ids0);
        lemma_value_le_total(e0, creator);
        assert(bal(e0, creator) <= sum_values(e0));
        let v = (bal(e0, creator) + reward.payload.amount) as u64;
        assert(reward.payload.to@ == creator);
        assert(reward.payload.amount == 1);
        lemma_bal_store(e0, creator, v);
        assert(replay_prefix(e0, ids0, txs, creator, 0) == Replay::Applied(e0, ids0));
        assert(replay_prefix(e0, ids0, txs, creator, 1) == Replay::Applied(store_entry(e0, creator, v), ids0.push(reward.id@)));
        assert(ids0.push(reward.id@) + tx_ids(sel) =~= ids0.push(reward.id@));
    } else {
        let prev = select_prefix(pool, e0, ids0, max, (n - 1) as nat);
        let cur = select_prefix(pool, e0, ids0, max, n);
        let tx = pool[n - 1].1;
        assert(cur == select_step(prev, tx, max));
        let (sel, es, is) = prev;
        let skipped = sel.len() >= max || spec_is_reward(tx) || is.contains(tx.id@) || !spec_valid_normal(tx) || bal(
            es,
            tx.payload.from@,
        ) < tx.payload.amount;
        if skipped {
            assert(cur == prev);
            lemma_selection_replays(pool, e0, ids0, max, (n - 1) as nat, txs, creator);
        } else {
            let m = sel.len();
            assert(cur.0 == sel.push(tx));
            assert forall|k: int| 0 <= k < m implies txs[k + 1] == #[trigger] sel[k] by {
                assert(cur.0[k] == sel[k]);
            }
            lemma_selection_replays(pool, e0, ids0, max, (n - 1) as nat, txs, creator);
            let from = tx.payload.from@;
            let to = tx.payload.to@;
            let amt = tx.payload.amount;
            // the selection's side
            let es1 = store_entry(es, from, (bal(es, from) - amt) as u64);
            lemma_bal_store(es, from, (bal(es, from) - amt) as u64);
            lemma_value_le_total(es1, to);
            let es2 = store_entry(es1, to, (bal(es1, to) + amt) as u64);
            lemma_bal_store(es1, to, (bal(es1, to) + amt) as u64);
            assert(cur.1 == es2);
            assert(cur.2 == is.push(tx.id@));
            assert(tx_ids(sel.push(tx)) =~= tx_ids(sel).push(tx.id@));
            assert(cur.2 =~= ids0 + tx_ids(cur.0));
            // the replay's side
            let rp = replay_prefix(e0, ids0, txs, creator, m + 1);
            let er = rp->Applied_0;
            let ir = rp->Applied_1;
            assert(txs[m + 1 as int] == tx) by {
                assert(cur.0[m as int] == tx);
            }
            assert(tx.id@ != reward.id@);
            assert(!ir.contains(tx.id@)) by {
                if ir.contains(tx.id@) {
                    let i = choose|i: int| 0 <= i < ir.len() && ir[i] == tx.id@;
                    if i < ids0.len() {
                        assert(is[i] == ids0[i]);
                    } else if i == ids0.len() {
                        assert(ir[i] == reward.id@);
                    } else {
                        assert(ir[i] == tx_ids(sel)[i - ids0.len() - 1]);
                        assert(is[i - 1] == tx_ids(sel)[i - ids0.len() - 1]);
                    }
                }
            }
            assert(bal(er, from) >= amt);
            let er1 = store_entry(er, from, (bal(er, from) - amt) as u64);
            lemma_bal_store(er, from, (bal(er, from) - amt) as u64);
            lemma_value_le_total(er1, to);
            let er2 = store_entry(er1, to, (bal(er1, to) + amt) as u64);
            lemma_bal_store(er1, to, (bal(er1, to) + amt) as u64);
            assert(replay_prefix(e0, ids0, txs, creator, m + 2) == Replay::Applied(er2, ir.push(tx.id@)));
            assert(ir.push(tx.id@) =~= ids0.push(reward.id@) + tx_ids(cur.0));
            assert forall|a: Seq<char>| #[trigger] bal(er2, a) == bal(es2, a) + (if a == creator { 1int } else { 0int }) by {
                assert(bal(er1, a) == bal(es1, a) + (if a == creator { 1int } else { 0int }));
            }
        }
    }
}

/// The transfers a miner would put in a block on top of `parent_hash`: mempool
/// entries in order, skipping rewards, ids already in the branch, invalid ones
/// and overdrafts (replayed in selection order), at most `max`.
pub open spec fn spec_selection(chain: ChainState, parent_hash: Seq<char>, max: nat) -> Seq<SignedTransaction> {
    let e = if has_key(balance_cache_entries(chain.balances_cache), parent_hash) {
        chain.balances_at(parent_hash).entries()
    } else {
        Seq::empty()
    };
    let ids = if has_key(id_cache_entries(chain.tx_ids_cache), parent_hash) {
        chain.ids_at(parent_hash).items()
    } else {
        Seq::empty()
    };
    select_prefix(chain.pool(), e, ids, max, chain.pool().len()).0
}

/// Picks the mempool transfers for a block on top of `parent`.
pub fn select_mempool_transactions(chain: &ChainState, parent: &StoredBlock, max_txs: usize) -> (res: Vec<SignedTransaction>)
    requires
        chain.wf(),
    ensures
        res@ == spec_selection(*chain, parent.block.hash@, max_txs as nat),
{
    proof { reveal(ChainState::wf); }
    let ph = &parent.block.hash;
    let mut balances = match balance_cache_get(&chain.balances_cache, ph) {
        Some(b) => b.duplicate(),
        None => Balances::new(),
    };
    let mut tx_ids = match id_cache_get(&chain.tx_ids_cache, ph) {
        Some(s) => s.duplicate(),
        None => StringSet::new(),
    };
    proof {
        if has_key(balance_cache_entries(chain.balances_cache), ph@) {
            assert(chain.knows(ph@));
            assert(chain.block_ok(ph@));
        }
        if has_key(id_cache_entries(chain.tx_ids_cache), ph@) {
            assert(chain.knows(ph@));
            assert(chain.block_ok(ph@));
        }
        balances.lemma_balance_le_total(ph@);
    }
    let ghost e0 = balances.entries();
    let ghost i0 = tx_ids.items();
    let ghost pool = chain.pool();
    let ghost total = balances.total();
    let n = pool_len(&chain.mempool);
    let mut selected: Vec<SignedTransaction> = Vec::new();
    let mut i: usize = 0;
    assert(total <= u64::MAX) by {
        if has_key(balance_cache_entries(chain.balances_cache), ph@) {
            assert(chain.knows(ph@));
            assert(chain.block_ok(ph@));
        }
    }
    while i < n && selected.len() < max_txs
        invariant
            pool == pool_entries(chain.mempool),
            n == pool.len(),
            i <= n,
            balances.wf(),
            tx_ids.wf(),
            balances.total() == total,
            total <= u64::MAX,
            select_prefix(pool, e0, i0, max_txs as nat, i as nat) == (selected@, balances.entries(), tx_ids.items()),
        decreases n - i,
    {
        let entry = pool_get_index(&chain.mempool, i);
        let tx = entry.unwrap().1;
        assert(*tx == pool[i as int].1);
        i = i + 1;
        if is_reward_transaction(tx) || tx_ids.contains(&tx.id) {
            continue;
        }
        if validate_normal_transaction(tx).is_err() {
            continue;
        }
        let available = balances.get(&tx.payload.from);
        if available < tx.payload.amount {
            continue;
        }
        balances.set(&tx.payload.from, available - tx.payload.amount);
        proof { balances.lemma_balance_le_total(tx.payload.to@); }
        let to_balance = balances.get(&tx.payload.to);
        balances.set(&tx.payload.to, to_balance + tx.payload.amount);
        tx_ids.insert(&tx.id);
        selected.push(tx.clone());
    }
    proof {
        if i < n {
            lemma_select_full_stays(pool, e0, i0, max_txs as nat, i as nat, n as nat);
        }
    }
    selected
}

} // verus!
