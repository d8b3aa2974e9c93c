//! Round-based ordering of ledger entries: round membership, rotating
//! leaders, majority quorums, commits and their validation against a node's
//! committed ledger.
use vstd::prelude::*;

use indexmap::IndexMap;

use crate::crypto::{commit_hash, spec_commit_hash};
use crate::indexed::{
    ledger_pool_entries, ledger_pool_get_index, ledger_pool_len, ledger_pool_new, ledger_pool_shift_remove,
};
use crate::ledger::{entry_id_ok, validate_transaction as validate_entry};
use crate::models::{Commit, CommitPayload, Proposal, Transaction, GENESIS_LEDGER_HASH};
use crate::sorting::{insert_sorted_unique, sort_transactions_by_key, strictly_sorted, tx_sorted, views};
use crate::store::{keys_distinct, remove_entry, StringSet};
use crate::text::{decimal, is_err_with, owned, push_decimal, push_str, seq_less, str_equal, str_less};

verus! {

/// A node of the round-ordered ledger: its address, peers and blocked peers,
/// pending entries, the committed ledger with its ids and hash, the next round,
/// the commits so far, and its settings.
#[derive(Debug)]
pub struct NodeState {
    pub addr: String,
    pub bind_addr: String,
    pub peers: Vec<String>,
    pub blocked_peers: StringSet,
    pub tx_pool: IndexMap<String, Transaction>,
    pub ledger: Vec<Transaction>,
    pub ledger_ids: StringSet,
    pub ledger_hash: String,
    pub next_round: u64,
    pub commits: Vec<Commit>,
    pub consensus_enabled: bool,
    pub local_seq: u64,
    pub round_secs: u64,
}

impl NodeState {
    /// The invariant of a node: its id sets and pool hold each id once, and it
    /// holds one commit per past round, each for its round and carrying the
    /// hash of its payload.
    pub open spec fn wf(&self) -> bool {
        &&& self.blocked_peers.wf()
        &&& self.ledger_ids.wf()
        &&& keys_distinct(ledger_pool_entries(self.tx_pool))
        &&& self.commits@.len() == self.next_round
        &&& forall|i: int| 0 <= i < self.commits@.len() ==> (#[trigger] self.commits@[i]).payload.round == i
            && self.commits@[i].commit_hash@ == spec_commit_hash(self.commits@[i].payload)
    }

    /// The pending entries, in arrival order.
    pub open spec fn pool(&self) -> Seq<(Seq<char>, Transaction)> {
        ledger_pool_entries(self.tx_pool)
    }

    /// A node with an empty ledger: round 0, consensus on, rounds of 2 seconds.
    pub fn new(addr: String, bind_addr: String) -> (res: Self)
        ensures
            res.wf(),
            res.addr == addr,
            res.bind_addr == bind_addr,
            res.peers@.len() == 0,
            res.blocked_peers.items().len() == 0,
            res.pool().len() == 0,
            res.ledger@.len() == 0,
            res.ledger_ids.items().len() == 0,
            res.ledger_hash@ == GENESIS_LEDGER_HASH@,
            res.next_round == 0,
            res.commits@.len() == 0,
            res.consensus_enabled,
            res.local_seq == 0,
            res.round_secs == 2,
    {
        NodeState {
            addr,
            bind_addr,
            peers: Vec::new(),
            blocked_peers: StringSet::new(),
            tx_pool: ledger_pool_new(),
            ledger: Vec::new(),
            ledger_ids: StringSet::new(),
            ledger_hash: owned(GENESIS_LEDGER_HASH),
            next_round: 0,
            commits: Vec::new(),
            consensus_enabled: true,
            local_seq: 0,
            round_secs: 2,
        }
    }
}

/// Whether a list of strings holds `s`.
pub fn contains_str(v: &Vec<String>, s: &str) -> (res: bool)
    ensures
        res == views(v@).contains(s@),
{
    let mut i: usize = 0;
    while i < v.len()
        invariant
            i <= v@.len(),
            forall|k: int| 0 <= k < i ==> #[trigger] v@[k]@ != s@,
        decreases v@.len() - i,
    {
        if str_equal(&v[i], s) {
            assert(views(v@)[i as int] == s@);
            return true;
        }
        i = i + 1;
    }
    false
}

/// The members of a round: this node and its peers that are not blocked, sorted,
/// each once.
pub open spec fn member_set(state: NodeState) -> Set<Seq<char>> {
    Set::new(
        |s: Seq<char>|
            s == state.addr@ || (views(state.peers@).contains(s) && !state.blocked_peers.has(s)),
    )
}

/// The sorted, duplicate-free members of the next round.
pub fn build_members(state: &NodeState) -> (res: Vec<String>)
    ensures
        strictly_sorted(views(res@)),
        views(res@).to_set() == member_set(*state),
{
    let mut members: Vec<String> = Vec::new();
    assert(views(members@).to_set() =~= Set::<Seq<char>>::empty());
    insert_sorted_unique(&mut members, state.addr.clone());
    let mut i: usize = 0;
    while i < state.peers.len()
        invariant
            i <= state.peers@.len(),
            strictly_sorted(views(members@)),
            views(members@).to_set() == Set::new(
                |s: Seq<char>|
                    s == state.addr@ || (views(state.peers@.take(i as int)).contains(s) && !state.blocked_peers.has(
                        s,
                    )),
            ),
        decreases state.peers@.len() - i,
    {
        let peer = &state.peers[i];
        let ghost before = views(members@).to_set();
        let ghost old_take = views(state.peers@.take(i as int));
        if str_equal(peer, &state.addr) || !state.blocked_peers.contains(peer) {
            insert_sorted_unique(&mut members, peer.clone());
        }
        proof {
            let new_take = views(state.peers@.take(i + 1));
            assert(new_take =~= old_take.push(peer@));
            assert forall|s: Seq<char>| new_take.contains(s) <==> (s == peer@ || old_take.contains(s)) by {
                vstd::seq_lib::lemma_seq_contains_after_push(old_take, peer@, s);
            }
        }
        i = i + 1;
        assert(views(members@).to_set() =~= Set::new(
            |s: Seq<char>|
                s == state.addr@ || (views(state.peers@.take(i as int)).contains(s) && !state.blocked_peers.has(s)),
        ));
    }
    assert(state.peers@.take(state.peers@.len() as int) == state.peers@);
    assert(views(members@).to_set() =~= member_set(*state));
    members
}

/// The position of the leader of `round` among `len` members.
pub open spec fn leader_index(len: nat, round: u64) -> int {
    (round as usize) as int % len as int
}

/// The leader of a round: members rotate, round by round.
pub fn expected_leader(members: &[String], round: u64) -> (res: Option<String>)
    ensures
        members@.len() == 0 <==> res is None,
        res matches Some(leader) ==> leader@ == members@[leader_index(members@.len(), round)]@,
{
    if members.len() == 0 {
        return None;
    }
    let r: usize = #[verifier::truncate] (round as usize);
    Some(members[r % members.len()].clone())
}

/// A strict majority of `n` members.
pub open spec fn spec_quorum(n: nat) -> nat {
    n / 2 + 1
}

/// The number of votes a round of `member_count` members needs.
pub fn quorum(member_count: usize) -> (res: usize)
    ensures
        res == spec_quorum(member_count as nat),
{
    member_count / 2 + 1
}

/// What a member proposes for a round: its pending entries not yet committed.
pub open spec fn uncommitted(pool: Seq<(Seq<char>, Transaction)>, committed: Seq<Seq<char>>) -> Seq<Transaction>
    decreases pool.len(),
{
    if pool.len() == 0 {
        Seq::empty()
    } else if committed.contains(pool.last().1.id@) {
        uncommitted(pool.drop_last(), committed)
    } else {
        uncommitted(pool.drop_last(), committed).push(pool.last().1)
    }
}

/// This node's proposal for a round.
pub fn build_proposal(state: &NodeState, round: u64) -> (res: Proposal)
    ensures
        res.addr == state.addr,
        res.round == round,
        res.ledger_len == state.ledger@.len(),
        res.ledger_hash == state.ledger_hash,
        res.pending@ == uncommitted(state.pool(), state.ledger_ids.items()),
{
    let ghost pool = state.pool();
    let n = ledger_pool_len(&state.tx_pool);
    let mut pending: Vec<Transaction> = Vec::new();
    let mut i: usize = 0;
    while i < n
        invariant
            pool == state.pool(),
            n == pool.len(),
            i <= n,
            pending@ == uncommitted(pool.take(i as int), state.ledger_ids.items()),
        decreases n - i,
    {
        let tx = ledger_pool_get_index(&state.tx_pool, i).unwrap().1;
        assert(pool.take(i + 1).drop_last() == pool.take(i as int));
        if !state.ledger_ids.contains(&tx.id) {
            pending.push(tx.clone());
        }
        i = i + 1;
    }
    assert(pool.take(n as int) == pool);
    Proposal {
        addr: state.addr.clone(),
        round,
        ledger_len: state.ledger.len(),
        ledger_hash: state.ledger_hash.clone(),
        pending,
    }
}

/// A commit of a payload, with its hash.
pub fn build_commit(payload: CommitPayload) -> (res: Commit)
    ensures
        res.payload == payload,
        res.commit_hash@ == spec_commit_hash(payload),
{
    let hash = match commit_hash(&payload) {
        Ok(hash) => hash,
        Err(_) => String::new(),
    };
    Commit { payload, commit_hash: hash }
}

/// Checks a ledger entry's id (the same rule as for ingested entries).
pub fn validate_transaction(tx: &Transaction) -> (res: Result<(), String>)
    ensures
        res is Ok <==> entry_id_ok(*tx),
        !entry_id_ok(*tx) ==> is_err_with(res, "transaction id does not match transaction content"@),
{
    validate_entry(tx)
}

/// Strings whose neighbours are strictly increasing.
pub open spec fn neighbours_increasing(v: Seq<Seq<char>>) -> bool {
    forall|i: int| 0 <= i < v.len() - 1 ==> seq_less(#[trigger] v[i], v[i + 1])
}

fn is_sorted_unique(values: &Vec<String>) -> (res: bool)
    ensures
        res == neighbours_increasing(views(values@)),
{
    let mut i: usize = 1;
    while i < values.len()
        invariant
            1 <= i,
            i <= values@.len() || values@.len() == 0,
            forall|k: int| 0 <= k < i - 1 && k < values@.len() - 1 ==> seq_less(#[trigger] views(values@)[k], views(values@)[k + 1]),
        decreases values@.len() - i,
    {
        if !str_less(&values[i - 1], &values[i]) {
            assert(!seq_less(views(values@)[i - 1], views(values@)[(i - 1) + 1]));
            return false;
        }
        i = i + 1;
    }
    true
}

fn is_unique(values: &Vec<String>) -> (res: bool)
    ensures
        res == views(values@).no_duplicates(),
{
    let mut seen = StringSet::new();
    let mut i: usize = 0;
    while i < values.len()
        invariant
            i <= values@.len(),
            seen.wf(),
            seen.items() == views(values@).take(i as int),
            views(values@).take(i as int).no_duplicates(),
        decreases values@.len() - i,
    {
        assert(views(values@).take(i + 1) == views(values@).take(i as int).push(values@[i as int]@));
        if !seen.insert(&values[i]) {
            proof {
                let k = choose|k: int| 0 <= k < i && views(values@)[k] == values@[i as int]@;
                assert(views(values@)[k] == views(values@)[i as int]);
            }
            return false;
        }
        i = i + 1;
    }
    assert(views(values@).take(values@.len() as int) == views(values@));
    true
}

/// The first rule an entry list of a commit breaks: ids that do not match,
/// an id twice in the commit, or an id already committed.
pub open spec fn entries_error(txs: Seq<Transaction>, committed: Seq<Seq<char>>, n: nat) -> Option<Seq<char>>
    decreases n,
{
    if n == 0 {
        None
    } else if entries_error(txs, committed, (n - 1) as nat) is Some {
        entries_error(txs, committed, (n - 1) as nat)
    } else if !entry_id_ok(txs[n - 1]) {
        Some("transaction id does not match transaction content"@)
    } else if entry_ids(txs.take(n - 1)).contains(txs[n - 1].id@) {
        Some("commit contains duplicate transaction"@)
    } else if committed.contains(txs[n - 1].id@) {
        Some("transaction is already committed"@)
    } else {
        None
    }
}

/// The ids of a list of entries.
pub open spec fn entry_ids(txs: Seq<Transaction>) -> Seq<Seq<char>> {
    txs.map_values(|tx: Transaction| tx.id@)
}

/// The message for a commit of the wrong round.
pub open spec fn round_mismatch_message(round: u64, next_round: u64) -> Seq<char> {
    "commit round "@ + decimal(round as nat) + " does not match next round "@ + decimal(next_round as nat)
}

/// The first rule a commit breaks for this node, if any. A commit of an
/// earlier round is accepted exactly when it is the one committed then.
pub open spec fn commit_error(state: NodeState, commit: Commit) -> Option<Seq<char>> {
    let p = commit.payload;
    let round = p.round;
    if commit.commit_hash@ != spec_commit_hash(p) {
        Some("commit hash does not match payload"@)
    } else if round < state.next_round {
        if (round as usize) as int >= state.commits@.len() {
            Some("commit round is before next_round but missing locally"@)
        } else if state.commits@[(round as usize) as int].commit_hash@ == commit.commit_hash@ {
            None
        } else {
            Some("commit conflicts with already committed round"@)
        }
    } else if round != state.next_round {
        Some(round_mismatch_message(round, state.next_round))
    } else if p.prev_ledger_hash@ != state.ledger_hash@ {
        Some("ledger hash mismatch"@)
    } else if !neighbours_increasing(views(p.members@)) {
        Some("members must be sorted and unique"@)
    } else if p.members@.len() == 0 {
        Some("members cannot be empty"@)
    } else if !views(p.members@).contains(p.leader@) {
        Some("leader is not in members"@)
    } else if p.leader@ != p.members@[leader_index(p.members@.len(), round)]@ {
        Some("leader does not match round membership"@)
    } else if !views(p.votes@).no_duplicates() {
        Some("votes must be unique"@)
    } else if exists|i: int| 0 <= i < p.votes@.len() && !views(p.members@).contains(#[trigger] p.votes@[i]@) {
        Some("vote is not in members"@)
    } else if p.votes@.len() < spec_quorum(p.members@.len()) {
        Some("commit does not have quorum"@)
    } else {
        entries_error(p.txs@, state.ledger_ids.items(), p.txs@.len())
    }
}

proof fn lemma_entries_error_stays(txs: Seq<Transaction>, committed: Seq<Seq<char>>, n: nat, m: nat)
    requires
        n <= m,
        entries_error(txs, committed, n) is Some,
    ensures
        entries_error(txs, committed, m) == entries_error(txs, committed, n),
    decreases m - n,
{
    if n < m {
        lemma_entries_error_stays(txs, committed, n, (m - 1) as nat);
    }
}

proof fn lemma_entries_ok_prefix(txs: Seq<Transaction>, committed: Seq<Seq<char>>, n: nat, k: nat)
    requires
        k < n,
        entries_error(txs, committed, n) is None,
    ensures
        entries_error(txs, committed, k + 1) is None,
    decreases n - k,
{
    if k + 1 < n {
        lemma_entries_ok_prefix(txs, committed, (n - 1) as nat, k);
    }
}

/// Checks a commit against this node's state.
pub fn validate_commit_for_state(state: &NodeState, commit: &Commit) -> (res: Result<(), String>)
    ensures
        res is Ok <==> commit_error(*state, *commit) is None,
        commit_error(*state, *commit) matches Some(msg) ==> is_err_with(res, msg),
{
    let expected_hash = match commit_hash(&commit.payload) {
        Ok(hash) => hash,
        Err(e) => return Err(e),
    };
    if commit.commit_hash != expected_hash {
        return Err(owned("commit hash does not match payload"));
    }
    let round = commit.payload.round;
    if round < state.next_round {
        let index: usize = #[verifier::truncate] (round as usize);
        if index >= state.commits.len() {
            return Err(owned("commit round is before next_round but missing locally"));
        }
        if state.commits[index].commit_hash == commit.commit_hash {
            return Ok(());
        }
        return Err(owned("commit conflicts with already committed round"));
    }
    if round != state.next_round {
        let mut msg = owned("commit round ");
        push_decimal(&mut msg, round);
        push_str(&mut msg, " does not match next round ");
        push_decimal(&mut msg, state.next_round);
        assert(msg@ =~= round_mismatch_message(round, state.next_round));
        return Err(msg);
    }
    if commit.payload.prev_ledger_hash != state.ledger_hash {
        return Err(owned("ledger hash mismatch"));
    }
    if !is_sorted_unique(&commit.payload.members) {
        return Err(owned("members must be sorted and unique"));
    }
    if commit.payload.members.len() == 0 {
        return Err(owned("members cannot be empty"));
    }
    if !contains_str(&commit.payload.members, &commit.payload.leader) {
        return Err(owned("leader is not in members"));
    }
    let expected = match expected_leader(commit.payload.members.as_slice(), round) {
        Some(leader) => leader,
        None => return Err(owned("cannot select leader from empty members")),
    };
    if commit.payload.leader != expected {
        return Err(owned("leader does not match round membership"));
    }
    if !is_unique(&commit.payload.votes) {
        return Err(owned("votes must be unique"));
    }
    if !all_in(&commit.payload.votes, &commit.payload.members) {
        return Err(owned("vote is not in members"));
    }
    if commit.payload.votes.len() < quorum(commit.payload.members.len()) {
        return Err(owned("commit does not have quorum"));
    }
    check_entries(&commit.payload.txs, &state.ledger_ids)
}

/// Whether every one of `values` is among `members`.
fn all_in(values: &Vec<String>, members: &Vec<String>) -> (res: bool)
    ensures
        res == forall|i: int| 0 <= i < values@.len() ==> views(members@).contains(#[trigger] values@[i]@),
{
    let mut v: usize = 0;
    while v < values.len()
        invariant
            v <= values@.len(),
            forall|k: int| 0 <= k < v ==> views(members@).contains(#[trigger] values@[k]@),
        decreases values@.len() - v,
    {
        if !contains_str(members, &values[v]) {
            assert(!views(members@).contains(values@[v as int]@));
            return false;
        }
        v = v + 1;
    }
    true
}

/// Checks a commit's entries in order: each id matches its content, appears
/// once in the commit and is not committed yet.
fn check_entries(txs: &Vec<Transaction>, committed: &StringSet) -> (res: Result<(), String>)
    ensures
        res is Ok <==> entries_error(txs@, committed.items(), txs@.len()) is None,
        entries_error(txs@, committed.items(), txs@.len()) matches Some(msg) ==> is_err_with(res, msg),
{
    let mut seen = StringSet::new();
    let mut i: usize = 0;
    while i < txs.len()
        invariant
            i <= txs@.len(),
            seen.wf(),
            seen.items() == entry_ids(txs@.take(i as int)),
            entries_error(txs@, committed.items(), i as nat) is None,
        decreases txs@.len() - i,
    {
        let tx = &txs[i];
        assert(txs@.take(i + 1) == txs@.take(i as int).push(txs@[i as int]));
        assert(entry_ids(txs@.take(i + 1)) =~= entry_ids(txs@.take(i as int)).push(tx.id@));
        match validate_transaction(tx) {
            Ok(()) => {},
            Err(error) => {
                proof {
                    lemma_entries_error_stays(txs@, committed.items(), (i + 1) as nat, txs@.len());
                }
                return Err(error);
            },
        }
        if !seen.insert(&tx.id) {
            proof {
                lemma_entries_error_stays(txs@, committed.items(), (i + 1) as nat, txs@.len());
            }
            return Err(owned("commit contains duplicate transaction"));
        }
        if committed.contains(&tx.id) {
            proof {
                lemma_entries_error_stays(txs@, committed.items(), (i + 1) as nat, txs@.len());
            }
            return Err(owned("transaction is already committed"));
        }
        i = i + 1;
    }
    assert(txs@.take(txs@.len() as int) == txs@);
    Ok(())
}

/// The pool after removing each of `keys`, in turn.
pub open spec fn remove_all(e: Seq<(Seq<char>, Transaction)>, keys: Seq<Seq<char>>) -> Seq<(Seq<char>, Transaction)>
    decreases keys.len(),
{
    if keys.len() == 0 {
        e
    } else {
        remove_entry(remove_all(e, keys.drop_last()), keys.last())
    }
}

/// Applies a valid commit: a commit of an earlier round changes nothing; a
/// commit of the next round appends its entries to the ledger, drops them from
/// the pool, makes its hash the ledger hash and advances the round.
pub fn apply_commit(state: &mut NodeState, commit: Commit) -> (res: Result<(), String>)
    requires
        old(state).wf(),
        old(state).next_round < u64::MAX,
    ensures
        final(state).wf(),
        res is Ok <==> commit_error(*old(state), commit) is None,
        commit_error(*old(state), commit) matches Some(msg) ==> is_err_with(res, msg),
        !(res is Ok && commit.payload.round >= old(state).next_round) ==> *final(state) == *old(state),
        res is Ok && commit.payload.round >= old(state).next_round ==> {
            &&& final(state).ledger@ == old(state).ledger@ + commit.payload.txs@
            &&& final(state).ledger_ids.items() == old(state).ledger_ids.items() + entry_ids(commit.payload.txs@)
            &&& final(state).pool() == remove_all(old(state).pool(), entry_ids(commit.payload.txs@))
            &&& final(state).ledger_hash@ == commit.commit_hash@
            &&& final(state).next_round == old(state).next_round + 1
            &&& final(state).commits@ == old(state).commits@.push(commit)
            &&& final(state).addr == old(state).addr
            &&& final(state).peers == old(state).peers
            &&& final(state).blocked_peers == old(state).blocked_peers
            &&& final(state).local_seq == old(state).local_seq
            &&& final(state).consensus_enabled == old(state).consensus_enabled
        },
{
    validate_commit_for_state(state, &commit)?;
    if commit.payload.round < state.next_round {
        return Ok(());
    }
    let ghost txs = commit.payload.txs@;
    let ghost ids0 = state.ledger_ids.items();
    let ghost ledger0 = state.ledger@;
    let ghost pool0 = state.pool();
    let ghost st0 = *state;
    let mut i: usize = 0;
    while i < commit.payload.txs.len()
        invariant
            txs == commit.payload.txs@,
            st0.next_round < u64::MAX,
            state.next_round == st0.next_round,
            state.commits == st0.commits,
            state.addr == st0.addr,
            state.peers == st0.peers,
            state.blocked_peers == st0.blocked_peers,
            state.local_seq == st0.local_seq,
            state.consensus_enabled == st0.consensus_enabled,
            i <= txs.len(),
            state.wf(),
            entries_error(txs, ids0, txs.len()) is None,
            state.ledger_ids.items() == ids0 + entry_ids(txs.take(i as int)),
            state.ledger@ == ledger0 + txs.take(i as int),
            state.pool() == remove_all(pool0, entry_ids(txs.take(i as int))),
        decreases txs.len() - i,
    {
        let tx = &commit.payload.txs[i];
        assert(*tx == txs[i as int]);
        assert(txs.take(i + 1) == txs.take(i as int).push(txs[i as int]));
        assert(entry_ids(txs.take(i + 1)) =~= entry_ids(txs.take(i as int)).push(tx.id@));
        proof {
            lemma_entries_ok_prefix(txs, ids0, txs.len(), i as nat);
            assert(!ids0.contains(tx.id@));
            assert(!entry_ids(txs.take(i as int)).contains(tx.id@));
            if (ids0 + entry_ids(txs.take(i as int))).contains(tx.id@) {
                let k = choose|k: int| 0 <= k < (ids0 + entry_ids(txs.take(i as int))).len() && (ids0 + entry_ids(txs.take(i as int)))[k] == tx.id@;
                if k < ids0.len() {
                    assert(ids0[k] == tx.id@);
                } else {
                    assert(entry_ids(txs.take(i as int))[k - ids0.len()] == tx.id@);
                }
            }
        }
        ledger_pool_shift_remove(&mut state.tx_pool, &tx.id);
        state.ledger_ids.insert(&tx.id);
        state.ledger.push(tx.clone());
        i = i + 1;
        assert(state.ledger_ids.items() =~= ids0 + entry_ids(txs.take(i as int)));
        assert(state.ledger@ =~= ledger0 + txs.take(i as int));
        assert(entry_ids(txs.take(i as int)).drop_last() == entry_ids(txs.take(i - 1)));
    }
    assert(txs.take(txs.len() as int) == txs);
    state.ledger_hash = commit.commit_hash.clone();
    state.next_round = state.next_round + 1;
    state.commits.push(commit);
    Ok(())
}

/// Sorts entries by (origin, sequence number, id), so every node orders a
/// round's entries the same way.
pub fn sort_transactions(txs: &mut Vec<Transaction>)
    ensures
        tx_sorted(final(txs)@),
        final(txs)@.to_multiset() == old(txs)@.to_multiset(),
{
    sort_transactions_by_key(txs);
}

/// What a node does on a consensus tick: the round, the ledger it builds on,
/// the round's members, and whether this node leads the round (otherwise it
/// catches up from its peers).
#[derive(Debug)]
pub struct TickPlan {
    pub round: u64,
    pub ledger_hash: String,
    pub members: Vec<String>,
    pub leads: bool,
}

/// Plans a consensus tick: the members of the next round, sorted and each
/// once, always include this node; it leads when the round's rotating leader
/// is itself.
pub fn plan_tick(state: &NodeState) -> (res: TickPlan)
    ensures
        res.round == state.next_round,
        res.ledger_hash == state.ledger_hash,
        strictly_sorted(views(res.members@)),
        views(res.members@).to_set() == member_set(*state),
        res.members@.len() >= 1,
        res.leads == (res.members@[leader_index(res.members@.len(), state.next_round)]@ == state.addr@),
{
    let members = build_members(state);
    proof {
        assert(member_set(*state).contains(state.addr@));
        assert(views(members@).to_set().contains(state.addr@));
        if members@.len() == 0 {
            assert(views(members@).to_set() =~= Set::<Seq<char>>::empty());
        }
    }
    let leads = match expected_leader(members.as_slice(), state.next_round) {
        Some(leader) => str_equal(&leader, &state.addr),
        None => false,
    };
    TickPlan { round: state.next_round, ledger_hash: state.ledger_hash.clone(), members, leads }
}

/// Whether a node catching up asks `peer` for commits: the peer is another
/// node and reports a next round (0 when it reports none) beyond the local one.
pub fn wants_commits_from(addr: &str, peer: &str, peer_next_round: Option<u64>, local_next_round: u64) -> (res: bool)
    ensures
        res == (peer@ != addr@ && match peer_next_round {
            Some(n) => n > local_next_round,
            None => false,
        }),
{
    if str_equal(peer, addr) {
        return false;
    }
    match peer_next_round {
        Some(n) => n > local_next_round,
        None => false,
    }
}

/// What a node catching up does after applying one fetched commit.
#[derive(Debug, PartialEq, Eq)]
pub enum CatchUpStep {
    /// The commit advanced the ledger: store it (it is the last commit).
    Persist,
    /// The commit was of an earlier round: nothing changed.
    Skip,
    /// The commit was refused: stop taking commits from this peer.
    Stop(String),
}

/// Applies one commit fetched while catching up and says what follows: a
/// refused commit stops the catch-up with its error and changes nothing; an
/// accepted commit of the next round advances the ledger and is to be stored;
/// one of an earlier round changes nothing.
pub fn catch_up_step(state: &mut NodeState, commit: Commit) -> (res: CatchUpStep)
    requires
        old(state).wf(),
        old(state).next_round < u64::MAX,
    ensures
        final(state).wf(),
        commit_error(*old(state), commit) matches Some(msg) ==> (res matches CatchUpStep::Stop(m) && m@ == msg
            && *final(state) == *old(state)),
        commit_error(*old(state), commit) is None && commit.payload.round < old(state).next_round ==> (res
            == CatchUpStep::Skip && *final(state) == *old(state)),
        commit_error(*old(state), commit) is None && commit.payload.round >= old(state).next_round ==> {
            &&& res == CatchUpStep::Persist
            &&& final(state).ledger@ == old(state).ledger@ + commit.payload.txs@
            &&& final(state).pool() == remove_all(old(state).pool(), entry_ids(commit.payload.txs@))
            &&& final(state).ledger_hash@ == commit.commit_hash@
            &&& final(state).next_round == old(state).next_round + 1
            &&& final(state).commits@ == old(state).commits@.push(commit)
        },
{
    let before = state.next_round;
    match apply_commit(state, commit) {
        Ok(()) => {
            if state.next_round > before {
                CatchUpStep::Persist
            } else {
                CatchUpStep::Skip
            }
        },
        Err(error) => CatchUpStep::Stop(error),
    }
}

/// Whether a member's proposal answers this round on the same ledger.
pub open spec fn proposal_usable(p: Proposal, round: u64, ledger_hash: Seq<char>) -> bool {
    p.round == round && p.ledger_hash@ == ledger_hash
}

/// Whether a member's proposal answers this round on the same ledger.
pub fn usable_proposal(p: &Proposal, round: u64, ledger_hash: &str) -> (res: bool)
    ensures
        res == proposal_usable(*p, round, ledger_hash@),
{
    p.round == round && str_equal(&p.ledger_hash, ledger_hash)
}

/// The pending entries of the proposals, one proposal after the other.
pub open spec fn all_pending(props: Seq<Proposal>) -> Seq<Transaction>
    decreases props.len(),
{
    if props.len() == 0 {
        Seq::empty()
    } else {
        all_pending(props.drop_last()) + props.last().pending@
    }
}

/// The entries a round commits, before sorting: each entry that is not
/// committed yet, the first time its id comes up.
pub open spec fn fresh_entries(all: Seq<Transaction>, committed: Seq<Seq<char>>) -> Seq<Transaction>
    decreases all.len(),
{
    if all.len() == 0 {
        Seq::empty()
    } else {
        let prev = fresh_entries(all.drop_last(), committed);
        let t = all.last();
        if committed.contains(t.id@) || entry_ids(all.drop_last()).contains(t.id@) {
            prev
        } else {
            prev.push(t)
        }
    }
}

/// The entries a round commits are new: none is committed yet, no id comes
/// twice, and each was proposed.
pub proof fn lemma_fresh_entries(all: Seq<Transaction>, committed: Seq<Seq<char>>)
    ensures
        forall|k: int| 0 <= k < fresh_entries(all, committed).len() ==> !committed.contains(
            #[trigger] fresh_entries(all, committed)[k].id@,
        ),
        forall|k: int| 0 <= k < fresh_entries(all, committed).len() ==> entry_ids(all).contains(
            #[trigger] fresh_entries(all, committed)[k].id@,
        ),
        entry_ids(fresh_entries(all, committed)).no_duplicates(),
    decreases all.len(),
{
    if all.len() > 0 {
        let prev_all = all.drop_last();
        let t = all.last();
        lemma_fresh_entries(prev_all, committed);
        let prev = fresh_entries(prev_all, committed);
        let f = fresh_entries(all, committed);
        assert(entry_ids(all) =~= entry_ids(prev_all).push(t.id@));
        assert forall|k: int| 0 <= k < prev.len() implies entry_ids(all).contains(#[trigger] prev[k].id@) by {
            let i = choose|i: int| 0 <= i < entry_ids(prev_all).len() && entry_ids(prev_all)[i] == prev[k].id@;
            assert(entry_ids(all)[i] == prev[k].id@);
        }
        if !(committed.contains(t.id@) || entry_ids(prev_all).contains(t.id@)) {
            assert(f == prev.push(t));
            assert(entry_ids(f) =~= entry_ids(prev).push(t.id@));
            assert(entry_ids(all)[prev_all.len() as int] == t.id@);
            assert forall|a: int, b: int| 0 <= a < b < entry_ids(f).len() implies entry_ids(f)[a] != entry_ids(f)[b] by {
                if b == prev.len() {
                    assert(entry_ids(f)[a] == prev[a].id@);
                    assert(entry_ids(prev_all).contains(prev[a].id@)) by {
                        let i = choose|i: int| 0 <= i < entry_ids(all).len() && entry_ids(all)[i] == prev[a].id@;
                        if i < prev_all.len() {
                            assert(entry_ids(prev_all)[i] == prev[a].id@);
                        } else {
                            assert(prev[a].id@ == t.id@);
                            let j = choose|j: int| 0 <= j < entry_ids(prev_all).len() && entry_ids(prev_all)[j] == prev[a].id@;
                        }
                    }
                } else {
                    assert(entry_ids(prev)[a] != entry_ids(prev)[b]);
                }
            }
        }
    }
}

/// Entries that each match their id, none committed and no id twice, break
/// no rule of a commit's entry list.
pub(crate) proof fn lemma_entries_clean(txs: Seq<Transaction>, committed: Seq<Seq<char>>, n: nat)
    requires
        n <= txs.len(),
        forall|k: int| 0 <= k < txs.len() ==> entry_id_ok(#[trigger] txs[k]) && !committed.contains(txs[k].id@),
        entry_ids(txs).no_duplicates(),
    ensures
        entries_error(txs, committed, n) is None,
    decreases n,
{
    if n > 0 {
        lemma_entries_clean(txs, committed, (n - 1) as nat);
        let last = txs[n - 1];
        assert(entry_id_ok(last) && !committed.contains(last.id@));
        if entry_ids(txs.take(n - 1)).contains(last.id@) {
            let pre = entry_ids(txs.take(n - 1));
            let i = choose|i: int| 0 <= i < pre.len() && #[trigger] pre[i] == last.id@;
            assert(entry_ids(txs)[i] == entry_ids(txs)[n - 1]);
        }
    }
}

/// What the leader of a round decides once the proposals are in.
#[derive(Debug)]
pub enum RoundDecision {
    /// Fewer usable proposals than the round's quorum.
    NoQuorum { got: usize, needed: usize },
    /// A quorum, but nothing new to commit.
    NothingPending,
    /// The commit to apply and send to the members.
    Commit(Commit),
}

/// The leader's decision for a round, from the usable proposals (its own
/// first): without a quorum of them nothing happens; otherwise the new
/// entries are gathered, checked, sorted and committed with the proposers
/// as votes.
pub fn round_commit(
    round: u64,
    ledger_hash: &str,
    members: Vec<String>,
    leader: String,
    proposals: &Vec<Proposal>,
    committed: &StringSet,
) -> (res: Result<RoundDecision, String>)
    requires
        committed.wf(),
    ensures
        proposals@.len() < spec_quorum(members@.len()) ==> (res matches Ok(RoundDecision::NoQuorum { got, needed })
            && got == proposals@.len() && needed == spec_quorum(members@.len())),
        proposals@.len() >= spec_quorum(members@.len()) ==> {
            let fresh = fresh_entries(all_pending(proposals@), committed.items());
            if exists|k: int| 0 <= k < fresh.len() && !entry_id_ok(#[trigger] fresh[k]) {
                is_err_with(res, "transaction id does not match transaction content"@)
            } else if fresh.len() == 0 {
                res matches Ok(RoundDecision::NothingPending)
            } else {
                res matches Ok(RoundDecision::Commit(c)) && {
                    &&& c.payload.round == round
                    &&& c.payload.prev_ledger_hash@ == ledger_hash@
                    &&& c.payload.leader == leader
                    &&& c.payload.members == members
                    &&& views(c.payload.votes@) == proposals@.map_values(|p: Proposal| p.addr@)
                    &&& tx_sorted(c.payload.txs@)
                    &&& c.payload.txs@.to_multiset() == fresh.to_multiset()
                    &&& c.commit_hash@ == spec_commit_hash(c.payload)
                }
            }
        },
{
    let needed = quorum(members.len());
    if proposals.len() < needed {
        return Ok(RoundDecision::NoQuorum { got: proposals.len(), needed });
    }
    let mut all: Vec<Transaction> = Vec::new();
    let mut p: usize = 0;
    while p < proposals.len()
        invariant
            p <= proposals@.len(),
            all@ == all_pending(proposals@.take(p as int)),
        decreases proposals@.len() - p,
    {
        let pending = &proposals[p].pending;
        let ghost start = all@;
        let mut k: usize = 0;
        while k < pending.len()
            invariant
                k <= pending@.len(),
                all@ == start + pending@.take(k as int),
            decreases pending@.len() - k,
        {
            all.push(pending[k].clone());
            assert(pending@.take(k + 1) =~= pending@.take(k as int).push(pending@[k as int]));
            assert(all@ =~= start + pending@.take(k + 1));
            k = k + 1;
        }
        assert(pending@.take(pending@.len() as int) =~= pending@);
        assert(proposals@.take(p + 1).drop_last() =~= proposals@.take(p as int));
        p = p + 1;
    }
    assert(proposals@.take(proposals@.len() as int) =~= proposals@);
    let mut seen = StringSet::new();
    let mut txs: Vec<Transaction> = Vec::new();
    let mut i: usize = 0;
    while i < all.len()
        invariant
            i <= all@.len(),
            proposals@.len() >= spec_quorum(members@.len()),
            all@ == all_pending(proposals@),
            committed.wf(),
            seen.wf(),
            forall|id: Seq<char>| #[trigger] seen.has(id) <==> (entry_ids(all@.take(i as int)).contains(id) && !committed.has(id)),
            txs@ == fresh_entries(all@.take(i as int), committed.items()),
            forall|k: int| 0 <= k < txs@.len() ==> entry_id_ok(#[trigger] txs@[k]),
        decreases all@.len() - i,
    {
        let tx = &all[i];
        assert(all@.take(i + 1).drop_last() =~= all@.take(i as int));
        assert(entry_ids(all@.take(i + 1)) =~= entry_ids(all@.take(i as int)).push(tx.id@));
        proof {
            assert forall|id: Seq<char>| entry_ids(all@.take(i + 1)).contains(id) <==> (entry_ids(all@.take(i as int)).contains(id) || id == tx.id@) by {
                vstd::seq_lib::lemma_seq_contains_after_push(entry_ids(all@.take(i as int)), tx.id@, id);
            }
        }
        let ghost seen_before = seen;
        let ghost prev_ids = entry_ids(all@.take(i as int));
        proof {
            assert forall|id: Seq<char>| seen_before.has(id) <==> (prev_ids.contains(id) && !committed.has(id)) by {
                assert(seen_before.has(id) == seen.has(id));
            }
        }
        let is_committed = committed.contains(&tx.id);
        let is_new = !is_committed && seen.insert(&tx.id);
        proof {
            assert forall|id: Seq<char>| #[trigger] seen.has(id) <==> (entry_ids(all@.take(i + 1)).contains(id)
                && !committed.has(id)) by {
                vstd::seq_lib::lemma_seq_contains_after_push(prev_ids, tx.id@, id);
                if is_new {
                    vstd::seq_lib::lemma_seq_contains_after_push(seen_before.items(), tx.id@, id);
                }
            }
        }
        if is_new {
            match validate_transaction(tx) {
                Ok(()) => {},
                Err(error) => {
                    proof {
                        lemma_fresh_prefix(all@, committed.items(), (i + 1) as nat);
                        let fresh = fresh_entries(all@, committed.items());
                        let pre = fresh_entries(all@.take(i + 1), committed.items());
                        assert(pre == txs@.push(*tx));
                        assert(pre[txs@.len() as int] == *tx);
                        assert(fresh.subrange(0, pre.len() as int)[txs@.len() as int] == fresh[txs@.len() as int]);
                        assert(fresh[txs@.len() as int] == *tx);
                        assert(!entry_id_ok(fresh[txs@.len() as int]));
                    }
                    return Err(error);
                },
            }
            txs.push(tx.clone());
        }
        i = i + 1;
    }
    assert(all@.take(all@.len() as int) =~= all@);
    if txs.len() == 0 {
        return Ok(RoundDecision::NothingPending);
    }
    let ghost fresh = txs@;
    sort_transactions(&mut txs);
    let mut votes: Vec<String> = Vec::new();
    let mut v: usize = 0;
    while v < proposals.len()
        invariant
            v <= proposals@.len(),
            views(votes@) == proposals@.take(v as int).map_values(|p: Proposal| p.addr@),
        decreases proposals@.len() - v,
    {
        let ghost before = views(votes@);
        votes.push(proposals[v].addr.clone());
        assert(views(votes@) =~= before.push(proposals@[v as int].addr@));
        assert(proposals@.take(v + 1).map_values(|p: Proposal| p.addr@) =~= proposals@.take(v as int).map_values(
            |p: Proposal| p.addr@,
        ).push(proposals@[v as int].addr@));
        v = v + 1;
    }
    assert(proposals@.take(proposals@.len() as int) =~= proposals@);
    let payload = CommitPayload {
        round,
        prev_ledger_hash: crate::text::owned(ledger_hash),
        leader,
        members,
        votes,
        txs,
    };
    Ok(RoundDecision::Commit(build_commit(payload)))
}

/// The fresh entries of a prefix are a prefix of the fresh entries.
proof fn lemma_fresh_prefix(all: Seq<Transaction>, committed: Seq<Seq<char>>, n: nat)
    requires
        n <= all.len(),
    ensures
        fresh_entries(all.take(n as int), committed).is_prefix_of(fresh_entries(all, committed)),
    decreases all.len() - n,
{
    if n < all.len() {
        lemma_fresh_prefix(all, committed, n + 1);
        assert(all.take(n + 1 as int).drop_last() =~= all.take(n as int));
    } else {
        assert(all.take(n as int) =~= all);
    }
}

} // verus!
