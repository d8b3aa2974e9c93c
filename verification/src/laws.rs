//! Laws of the ledger: the fork-choice order, the canonical chain, its coin
//! supply and balances, mined blocks extending the tip, round quorums and
//! leaders, the leader's own commit, replayed and conflicting commits, peer
//! addresses, request senders, and messages read back.
use vstd::prelude::*;

use crate::chain::{
    canonical_path, descent, extend_outcome, lemma_better_tip_irreflexive, lemma_better_tip_transitive,
    lemma_bal_store, lemma_descent_at, lemma_selection_replays, lemma_wf_block, lemma_wf_keys, select_prefix, spec_better_tip,
    spec_selection, ChainState,
};
use crate::mining::{is_candidate, with_nonce, Candidate};
use crate::consensus::{
    all_pending, commit_error, entry_ids, fresh_entries, leader_index, lemma_entries_clean, lemma_fresh_entries,
    member_set, spec_quorum, NodeState,
};
use crate::ledger::entry_id_ok;
use crate::crypto::spec_commit_hash;
use crate::http::{
    first_node_addr_header, head_lines, host_header, is_node_addr_header, is_word, lemma_reply_lines, lemma_reply_split,
    lemma_request_parts, lemma_status_word, message_parts, no_cr, node_addr_header, node_addr_name, reply_headers,
    request_text, response_status, spec_response_text, start_word, status_line, Request,
};
use crate::models::{Block, Commit, Proposal, SignedTransaction, StoredBlock, Transaction, BLOCK_REWARD};
use crate::sorting::{lemma_tx_less_total, strictly_sorted, tx_key_less, tx_sorted, views};
use crate::peers::spec_normalize_peer;
use crate::scan::{lemma_parse_decimal, trim_start_ws, trim_ws};
use crate::replay::{bal, lemma_applied_steps, replay_prefix, spec_replay_block, Replay};
use crate::store::{has_key, keys_distinct, lemma_value_le_total, store_entry, sum_values};
use crate::transaction::{reward_transaction_error, spec_is_reward, spec_valid_normal};
use crate::text::{lemma_seq_less_irreflexive, lemma_seq_less_total, seq_less};

verus! {

/// Fork choice never prefers a block to itself.
pub proof fn law_fork_choice_irreflexive(a: StoredBlock)
    ensures
        !spec_better_tip(a, a),
{
    lemma_better_tip_irreflexive(a);
}

/// Of two blocks, fork choice prefers at most one to the other.
pub proof fn law_fork_choice_asymmetric(a: StoredBlock, b: StoredBlock)
    ensures
        !(spec_better_tip(a, b) && spec_better_tip(b, a)),
{
    lemma_seq_less_total(a.block.hash@, b.block.hash@);
}

/// Of two blocks with different hashes, fork choice prefers one: the choice
/// between any two tips is decided.
pub proof fn law_fork_choice_total(a: StoredBlock, b: StoredBlock)
    requires
        a.block.hash@ != b.block.hash@,
    ensures
        spec_better_tip(a, b) || spec_better_tip(b, a),
{
    lemma_seq_less_total(a.block.hash@, b.block.hash@);
}

/// Fork choice is transitive.
pub proof fn law_fork_choice_transitive(a: StoredBlock, b: StoredBlock, c: StoredBlock)
    requires
        spec_better_tip(a, b),
        spec_better_tip(b, c),
    ensures
        spec_better_tip(a, c),
{
    lemma_better_tip_transitive(a, b, c);
}

/// The selected tip stays the best stored block as long as the stored blocks
/// and the tip stay as they are (mempool, orphans, peers and mining may change).
pub proof fn law_tip_is_best_frame(a: ChainState, b: ChainState)
    requires
        a.tip_is_best(),
        b.blocks == a.blocks,
        b.best_tip == a.best_tip,
    ensures
        b.tip_is_best(),
{
    assert forall|h: Seq<char>| #[trigger] b.knows(h) implies !spec_better_tip(b.stored(h), b.best()) by {
        assert(a.knows(h));
    }
}

/// The canonical chain runs from a block of height 0 up to the selected tip,
/// one block per height, each block the parent of the next.
pub proof fn law_canonical_chain(chain: ChainState)
    requires
        chain.wf(),
    ensures
        canonical_path(chain).len() == chain.best().height + 1,
        canonical_path(chain).last() == chain.best_tip@,
        forall|k: int| 0 <= k < canonical_path(chain).len() ==> chain.knows(#[trigger] canonical_path(chain)[k])
            && chain.stored(canonical_path(chain)[k]).height == k,
        forall|k: int| 0 <= k < canonical_path(chain).len() - 1 ==> chain.stored(
            #[trigger] canonical_path(chain)[k + 1],
        ).block.header.previous_hash@ == canonical_path(chain)[k],
{
    reveal(ChainState::wf);
    let n = chain.best().height as nat;
    let d = descent(chain, chain.best_tip@, n);
    lemma_descent_at(chain, chain.best_tip@, n, 0);
    assert(canonical_path(chain) == d.reverse());
    assert forall|k: int| 0 <= k < canonical_path(chain).len() implies chain.knows(#[trigger] canonical_path(chain)[k])
        && chain.stored(canonical_path(chain)[k]).height == k by {
        lemma_descent_at(chain, chain.best_tip@, n, n - k);
    }
    assert forall|k: int| 0 <= k < canonical_path(chain).len() - 1 implies chain.stored(
        #[trigger] canonical_path(chain)[k + 1],
    ).block.header.previous_hash@ == canonical_path(chain)[k] by {
        lemma_descent_at(chain, chain.best_tip@, n, n - k - 1);
    }
}

/// The balances of the canonical chain hold exactly one block reward per
/// block above genesis: transfers move coins, only rewards create them.
pub proof fn law_canonical_supply(chain: ChainState)
    requires
        chain.wf(),
    ensures
        chain.balances_at(chain.best_tip@).total() == chain.best().height as int * BLOCK_REWARD as int,
{
    reveal(ChainState::wf);
    assert(chain.block_ok(chain.best_tip@));
}

/// Replaying, from no balances and no ids, the blocks named by `path` after
/// its first (the genesis block), one after the other.
pub open spec fn replay_path(chain: ChainState, path: Seq<Seq<char>>) -> Replay
    decreases path.len(),
{
    if path.len() <= 1 {
        Replay::Applied(Seq::empty(), Seq::empty())
    } else {
        match replay_path(chain, path.drop_last()) {
            Replay::Applied(e, ids) => spec_replay_block(
                e,
                ids,
                chain.stored(path.last()).block.transactions@,
                chain.stored(path.last()).block.header.creator@,
            ),
            Replay::Rejected(m) => Replay::Rejected(m),
        }
    }
}

/// Replaying the canonical chain up to its block at height `k` gives that
/// block's balances and ids.
proof fn lemma_replay_canonical_prefix(chain: ChainState, k: int)
    requires
        chain.wf(),
        0 <= k < canonical_path(chain).len(),
        forall|j: int| 0 <= j < canonical_path(chain).len() ==> chain.knows(#[trigger] canonical_path(chain)[j])
            && chain.stored(canonical_path(chain)[j]).height == j,
        forall|j: int| 0 <= j < canonical_path(chain).len() - 1 ==> chain.stored(
            #[trigger] canonical_path(chain)[j + 1],
        ).block.header.previous_hash@ == canonical_path(chain)[j],
    ensures
        replay_path(chain, canonical_path(chain).take(k + 1)) == Replay::Applied(
            chain.balances_at(canonical_path(chain)[k]).entries(),
            chain.ids_at(canonical_path(chain)[k]).items(),
        ),
    decreases k,
{
    reveal(ChainState::wf);
    let path = canonical_path(chain);
    assert(chain.knows(path[k]));
    assert(chain.block_ok(path[k]));
    if k == 0 {
        assert(chain.balances_at(path[0]).entries() =~= Seq::<(Seq<char>, u64)>::empty());
        assert(chain.ids_at(path[0]).items() =~= Seq::<Seq<char>>::empty());
    } else {
        lemma_replay_canonical_prefix(chain, k - 1);
        assert(path.take(k + 1).drop_last() =~= path.take(k));
        assert(path.take(k + 1).last() == path[k]);
        assert(chain.stored(path[(k - 1) + 1]).block.header.previous_hash@ == path[k - 1]);
    }
}

/// The balances and transaction ids of the canonical chain are what replaying
/// its blocks from genesis gives: rewards and transfers, block after block.
pub proof fn law_canonical_balances_replay(chain: ChainState)
    requires
        chain.wf(),
    ensures
        replay_path(chain, canonical_path(chain)) == Replay::Applied(
            chain.balances_at(chain.best_tip@).entries(),
            chain.ids_at(chain.best_tip@).items(),
        ),
{
    law_canonical_chain(chain);
    let path = canonical_path(chain);
    let n = path.len() as int;
    lemma_replay_canonical_prefix(chain, n - 1);
    assert(path.take(n) =~= path);
}

/// The coins that a run of transactions credits to `account`: every
/// transaction paying it, rewards included.
pub open spec fn credited(txs: Seq<SignedTransaction>, account: Seq<char>) -> int
    decreases txs.len(),
{
    if txs.len() == 0 {
        0
    } else {
        credited(txs.drop_last(), account) + if txs.last().payload.to@ == account {
            txs.last().payload.amount as int
        } else {
            0int
        }
    }
}

/// The coins that a run of transactions debits from `account`: every transfer
/// (not a reward) that it sends.
pub open spec fn debited(txs: Seq<SignedTransaction>, account: Seq<char>) -> int
    decreases txs.len(),
{
    if txs.len() == 0 {
        0
    } else {
        debited(txs.drop_last(), account) + if !spec_is_reward(txs.last()) && txs.last().payload.from@ == account {
            txs.last().payload.amount as int
        } else {
            0int
        }
    }
}

/// The transactions of the blocks named by `path` after its first (the
/// genesis block, which carries none), block after block.
pub open spec fn path_transactions(chain: ChainState, path: Seq<Seq<char>>) -> Seq<SignedTransaction>
    decreases path.len(),
{
    if path.len() <= 1 {
        Seq::empty()
    } else {
        path_transactions(chain, path.drop_last()) + chain.stored(path.last()).block.transactions@
    }
}

/// The transactions of the canonical chain, from genesis to the selected tip.
pub open spec fn canonical_transactions(chain: ChainState) -> Seq<SignedTransaction> {
    path_transactions(chain, canonical_path(chain))
}

proof fn lemma_credit_debit_concat(a: Seq<SignedTransaction>, b: Seq<SignedTransaction>, account: Seq<char>)
    ensures
        credited(a + b, account) == credited(a, account) + credited(b, account),
        debited(a + b, account) == debited(a, account) + debited(b, account),
    decreases b.len(),
{
    if b.len() == 0 {
        assert(a + b =~= a);
    } else {
        lemma_credit_debit_concat(a, b.drop_last(), account);
        assert((a + b).drop_last() =~= a + b.drop_last());
        assert((a + b).last() == b.last());
    }
}

/// Replaying an applied prefix of a block's transactions moves each balance by
/// what the prefix credits and debits, and adds the reward to the coins.
proof fn lemma_prefix_moves(
    e: Seq<(Seq<char>, u64)>,
    ids: Seq<Seq<char>>,
    txs: Seq<SignedTransaction>,
    creator: Seq<char>,
    n: nat,
)
    requires
        n <= txs.len(),
        keys_distinct(e),
        sum_values(e) + BLOCK_REWARD <= u64::MAX,
        replay_prefix(e, ids, txs, creator, n) is Applied,
    ensures
        replay_prefix(e, ids, txs, creator, n) matches Replay::Applied(e2, _) && {
            &&& keys_distinct(e2)
            &&& sum_values(e2) == sum_values(e) + if n > 0 && spec_is_reward(txs[0]) {
                BLOCK_REWARD as int
            } else {
                0int
            }
            &&& forall|a: Seq<char>| #[trigger] bal(e2, a) == bal(e, a) + credited(txs.take(n as int), a) - debited(
                txs.take(n as int),
                a,
            )
        },
    decreases n,
{
    if n == 0 {
        assert forall|a: Seq<char>| #[trigger] bal(e, a) == bal(e, a) + credited(txs.take(0), a) - debited(txs.take(0), a) by {
            assert(txs.take(0).len() == 0);
        }
    } else {
        let m = (n - 1) as nat;
        let prev = replay_prefix(e, ids, txs, creator, m);
        if prev is Rejected {
            assert(replay_prefix(e, ids, txs, creator, n) is Rejected);
        }
        lemma_prefix_moves(e, ids, txs, creator, m);
        let (e1, ids1) = match prev {
            Replay::Applied(x, y) => (x, y),
            Replay::Rejected(_) => (e, ids),
        };
        let tx = txs[m as int];
        assert(txs.take(n as int).drop_last() =~= txs.take(m as int));
        assert(txs.take(n as int).last() == tx);
        let from = tx.payload.from@;
        let to = tx.payload.to@;
        let amt = tx.payload.amount;
        lemma_value_le_total(e1, to);
        if spec_is_reward(tx) {
            assert(m == 0);
            assert(reward_transaction_error(tx, creator) is None);
            assert(amt == BLOCK_REWARD);
            assert(txs.take(0).len() == 0);
            let v = (bal(e1, to) + amt) as u64;
            lemma_bal_store(e1, to, v);
        } else {
            lemma_value_le_total(e1, from);
            let e2 = store_entry(e1, from, (bal(e1, from) - amt) as u64);
            lemma_bal_store(e1, from, (bal(e1, from) - amt) as u64);
            lemma_value_le_total(e2, to);
            lemma_bal_store(e2, to, (bal(e2, to) + amt) as u64);
        }
    }
}

/// Replaying a path of applied blocks gives balances that are what the path's
/// transactions credit and debit, and one reward of coins per block.
proof fn lemma_path_moves(chain: ChainState, path: Seq<Seq<char>>)
    requires
        path.len() >= 1,
        path.len() - 1 <= u64::MAX,
        replay_path(chain, path) is Applied,
    ensures
        replay_path(chain, path) matches Replay::Applied(e, _) && {
            &&& keys_distinct(e)
            &&& sum_values(e) == (path.len() - 1) * BLOCK_REWARD
            &&& forall|a: Seq<char>| #[trigger] bal(e, a) == credited(path_transactions(chain, path), a) - debited(
                path_transactions(chain, path),
                a,
            )
        },
    decreases path.len(),
{
    if path.len() == 1 {
        let e = Seq::<(Seq<char>, u64)>::empty();
        assert(sum_values(e) == 0);
        assert forall|a: Seq<char>| #[trigger] bal(e, a) == credited(path_transactions(chain, path), a) - debited(
            path_transactions(chain, path),
            a,
        ) by {
            assert(!has_key(e, a));
        }
    } else {
        let init = path.drop_last();
        if replay_path(chain, init) is Rejected {
            assert(replay_path(chain, path) is Rejected);
        }
        lemma_path_moves(chain, init);
        let (e0, ids0) = match replay_path(chain, init) {
            Replay::Applied(x, y) => (x, y),
            Replay::Rejected(_) => (Seq::empty(), Seq::empty()),
        };
        let block = chain.stored(path.last()).block;
        let txs = block.transactions@;
        let creator = block.header.creator@;
        assert(spec_replay_block(e0, ids0, txs, creator) is Applied);
        assert(txs.len() > 0);
        lemma_prefix_moves(e0, ids0, txs, creator, txs.len());
        assert(txs.take(txs.len() as int) =~= txs);
        let e2 = match replay_path(chain, path) {
            Replay::Applied(x, _) => x,
            Replay::Rejected(_) => e0,
        };
        assert forall|a: Seq<char>| #[trigger] bal(e2, a) == credited(
            path_transactions(chain, path),
            a,
        ) - debited(path_transactions(chain, path), a) by {
            lemma_credit_debit_concat(path_transactions(chain, init), txs, a);
        }
    }
}

/// Every account's balance at the selected tip is what the canonical chain's
/// transactions credit it (rewards and transfers received) less what its own
/// transfers send, summed from genesis to the tip.
pub proof fn law_canonical_balances_sum(chain: ChainState, account: Seq<char>)
    requires
        chain.wf(),
    ensures
        chain.balances_at(chain.best_tip@).balance(account) == credited(canonical_transactions(chain), account)
            - debited(canonical_transactions(chain), account),
{
    law_canonical_chain(chain);
    law_canonical_balances_replay(chain);
    lemma_path_moves(chain, canonical_path(chain));
    assert(bal(chain.balances_at(chain.best_tip@).entries(), account) == chain.balances_at(chain.best_tip@).balance(
        account,
    ));
}

/// Every stored block above genesis follows the block rules: its first
/// transaction is the reward of `BLOCK_REWARD` to its creator, no other
/// transaction is a reward, and every other one is a validly signed transfer.
pub proof fn law_stored_block_rules(chain: ChainState, hash: Seq<char>)
    requires
        chain.wf(),
        chain.knows(hash),
        chain.stored(hash).height > 0,
    ensures
        chain.stored(hash).block.transactions@.len() >= 1,
        spec_is_reward(chain.stored(hash).block.transactions@[0]),
        chain.stored(hash).block.transactions@[0].payload.to@ == chain.stored(hash).block.header.creator@,
        chain.stored(hash).block.transactions@[0].payload.amount == BLOCK_REWARD,
        forall|i: int| 0 < i < chain.stored(hash).block.transactions@.len() ==> !spec_is_reward(
            #[trigger] chain.stored(hash).block.transactions@[i],
        ) && spec_valid_normal(chain.stored(hash).block.transactions@[i]),
{
    lemma_wf_block(chain, hash);
    let block = chain.stored(hash).block;
    let parent = block.header.previous_hash@;
    let txs = block.transactions@;
    let creator = block.header.creator@;
    let e = chain.balances_at(parent).entries();
    let ids = chain.ids_at(parent).items();
    assert(spec_replay_block(e, ids, txs, creator) is Applied);
    assert(txs.len() > 0);
    assert(replay_prefix(e, ids, txs, creator, txs.len()) is Applied);
    lemma_applied_steps(e, ids, txs, creator, txs.len());
    assert(spec_is_reward(txs[0]));
    assert(reward_transaction_error(txs[0], creator) is None);
}

/// A quorum is a strict majority that fits in the membership.
pub proof fn law_quorum_majority(n: nat)
    requires
        n >= 1,
    ensures
        spec_quorum(n) <= n,
        2 * spec_quorum(n) > n,
{
}

/// Any two quorums of the same members share a member.
pub proof fn law_quorums_intersect(members: Set<Seq<char>>, a: Set<Seq<char>>, b: Set<Seq<char>>)
    requires
        members.finite(),
        a.subset_of(members),
        b.subset_of(members),
        a.len() >= spec_quorum(members.len()),
        b.len() >= spec_quorum(members.len()),
    ensures
        exists|x: Seq<char>| a.contains(x) && b.contains(x),
{
    vstd::set_lib::lemma_len_subset(a, members);
    vstd::set_lib::lemma_len_subset(b, members);
    vstd::set_lib::lemma_len_subset(a + b, members);
    if !(exists|x: Seq<char>| a.contains(x) && b.contains(x)) {
        assert(a.disjoint(b));
        vstd::set_lib::lemma_set_disjoint_lens(a, b);
        assert((a + b).len() == a.len() + b.len());
    }
}

/// Leadership rotates: a round and the round one full turn of the members
/// later have the same leader, and the leader is always one of the members.
pub proof fn law_leader_rotation(len: nat, round: u64)
    requires
        len >= 1,
        round + len <= u64::MAX,
        round + len <= usize::MAX,
    ensures
        leader_index(len, (round + len) as u64) == leader_index(len, round),
        0 <= leader_index(len, round) < len,
{
    assert((round as usize) as int == round as int);
    assert((((round + len) as u64) as usize) as int == round + len);
    vstd::arithmetic::div_mod::lemma_mod_add_multiples_vanish(round as int, len as int);
}

/// A node accepts any commit it already applied, as the commit of a past
/// round; `apply_commit` then changes nothing.
pub proof fn law_commit_replay_accepted(state: NodeState, i: int)
    requires
        state.wf(),
        0 <= i < state.commits@.len(),
    ensures
        commit_error(state, state.commits@[i]) is None,
        state.commits@[i].payload.round < state.next_round,
{
    vstd::std_specs::vec::axiom_spec_len(&state.commits);
    let c = state.commits@[i];
    assert(c.payload.round == i);
    assert(c.commit_hash@ == spec_commit_hash(c.payload));
    assert((c.payload.round as usize) as int == i);
}

/// A commit that a node applied is accepted again when it is delivered once
/// more: from the state `apply_commit` leaves after accepting it (the commit
/// appended for a new round, the state unchanged for a past one), the commit
/// breaks no rule.
pub proof fn law_redelivered_commit_accepted(before: NodeState, after: NodeState, commit: Commit)
    requires
        before.wf(),
        after.wf(),
        commit_error(before, commit) is None,
        commit.payload.round >= before.next_round ==> after.commits@ == before.commits@.push(commit),
        commit.payload.round < before.next_round ==> after == before,
    ensures
        commit_error(after, commit) is None,
{
    if commit.payload.round >= before.next_round {
        vstd::std_specs::vec::axiom_spec_len(&before.commits);
        let i = before.commits@.len() as int;
        assert(after.commits@[i] == commit);
        law_commit_replay_accepted(after, i);
    }
}

/// A commit with a matching hash for a past round is accepted exactly when it
/// is the commit of that round; one for a round past the next is refused.
pub proof fn law_commit_round_rules(state: NodeState, commit: Commit)
    requires
        state.wf(),
        commit.commit_hash@ == spec_commit_hash(commit.payload),
    ensures
        commit.payload.round < state.next_round ==> (commit_error(state, commit) is None <==> commit.commit_hash@
            == state.commits@[commit.payload.round as int].commit_hash@),
        commit.payload.round > state.next_round ==> commit_error(state, commit) is Some,
{
    vstd::std_specs::vec::axiom_spec_len(&state.commits);
    if commit.payload.round < state.next_round {
        assert((commit.payload.round as usize) as int == commit.payload.round as int);
    }
}

/// A normalised peer address is empty or names a port.
pub proof fn law_normalized_peer_names_port(peer: Seq<char>, default_port: Seq<char>)
    ensures
        spec_normalize_peer(peer, default_port).len() > 0 ==> spec_normalize_peer(peer, default_port).contains(':'),
{
    reveal_strlit(":");
    let p = spec_normalize_peer(peer, default_port);
    if p.len() > 0 && !p.contains(':') {
        let q = crate::scan::strip_char_end(
            crate::scan::strip_prefix_all(crate::scan::strip_prefix_all(crate::scan::trim_ws(peer), "http://"@), "https://"@),
            '/',
        );
        assert(p == q + ":"@ + default_port);
        assert(p[q.len() as int] == ':');
    }
}

/// A request names its sender: of the headers a new request carries, the
/// first that names a node is the one with the sender's address.
pub proof fn law_request_names_sender(my_addr: Seq<char>, addr: Seq<char>)
    ensures
        first_node_addr_header(seq![host_header(addr), node_addr_header(my_addr)]) == Some(node_addr_header(my_addr)),
        trim_ws(node_addr_header(my_addr).skip(node_addr_name().len() as int)) == trim_ws(my_addr),
{
    reveal_strlit("Host: ");
    reveal_strlit("X-Node-Addr: ");
    reveal_strlit("x-node-addr:");
    reveal_strlit(" ");
    let hs = seq![host_header(addr), node_addr_header(my_addr)];
    let h = node_addr_header(my_addr);
    assert(!is_node_addr_header(host_header(addr))) by {
        assert(host_header(addr)[0] == 'H');
        assert(node_addr_name()[0] == 'x');
    }
    assert(is_node_addr_header(h)) by {
        assert forall|i: int| 0 <= i < node_addr_name().len() implies crate::http::ascii_lower(#[trigger] h[i] as u32)
            == node_addr_name()[i] as u32 by {
            assert(h[i] == "X-Node-Addr: "@[i]);
        }
    }
    let one = seq![host_header(addr)];
    assert(hs.drop_last() =~= one);
    assert(one.drop_last() =~= Seq::<Seq<char>>::empty());
    assert(first_node_addr_header(Seq::<Seq<char>>::empty()) is None);
    assert(one.last() == host_header(addr));
    assert(first_node_addr_header(one) is None);
    assert(hs.last() == h);
    assert(first_node_addr_header(hs) == Some(h));
    let rest = h.skip(node_addr_name().len() as int);
    assert(rest =~= " "@ + my_addr);
    assert(rest[0] == ' ');
    assert(rest.drop_first() =~= my_addr);
    assert(trim_start_ws(rest) == trim_start_ws(my_addr));
}

/// Sorting decides the order of a round's entries: two sorted lists of the
/// same entries, no id twice, are the same list.
pub proof fn law_sorted_entries_unique(a: Seq<Transaction>, b: Seq<Transaction>)
    requires
        tx_sorted(a),
        tx_sorted(b),
        a.to_multiset() == b.to_multiset(),
        forall|i: int, j: int| 0 <= i < j < a.len() ==> #[trigger] a[i].id@ != #[trigger] a[j].id@,
    ensures
        a == b,
    decreases a.len(),
{
    broadcast use vstd::seq_lib::to_multiset_len, vstd::seq_lib::to_multiset_contains, vstd::seq_lib::to_multiset_remove;

    assert(a.len() == a.to_multiset().len());
    assert(b.len() == b.to_multiset().len());
    if a.len() == 0 {
        assert(a =~= b);
    } else {
        assert(a.to_multiset().count(a[0]) > 0) by {
            assert(a.contains(a[0]));
        }
        assert(b.contains(a[0]));
        let k = choose|k: int| 0 <= k < b.len() && b[k] == a[0];
        assert(b.to_multiset().count(b[0]) > 0) by {
            assert(b.contains(b[0]));
        }
        assert(a.contains(b[0]));
        let m = choose|m: int| 0 <= m < a.len() && a[m] == b[0];
        if k > 0 {
            assert(!tx_key_less(b[k], b[0]));
        }
        if m > 0 {
            assert(!tx_key_less(a[m], a[0]));
        }
        lemma_tx_less_total(a[0], b[0]);
        if m != 0 {
            assert(a[0].id@ == a[m].id@);
        }
        assert(b[0] == a[0]);
        let ra = a.drop_first();
        let rb = b.drop_first();
        assert(a.remove(0) =~= ra);
        assert(b.remove(0) =~= rb);
        assert(ra.to_multiset() == rb.to_multiset());
        assert forall|i: int, j: int| 0 <= i < j < ra.len() implies !tx_key_less(#[trigger] ra[j], #[trigger] ra[i]) by {
            assert(ra[i] == a[i + 1] && ra[j] == a[j + 1]);
        }
        assert forall|i: int, j: int| 0 <= i < j < rb.len() implies !tx_key_less(#[trigger] rb[j], #[trigger] rb[i]) by {
            assert(rb[i] == b[i + 1] && rb[j] == b[j + 1]);
        }
        assert forall|i: int, j: int| 0 <= i < j < ra.len() implies #[trigger] ra[i].id@ != #[trigger] ra[j].id@ by {
            assert(ra[i] == a[i + 1] && ra[j] == a[j + 1]);
        }
        law_sorted_entries_unique(ra, rb);
        assert(a =~= seq![a[0]] + ra);
        assert(b =~= seq![b[0]] + rb);
    }
}

/// A sorted peer list is decided by its set of addresses: two strictly
/// increasing lists with the same addresses are the same list.
pub proof fn law_strictly_sorted_unique(a: Seq<Seq<char>>, b: Seq<Seq<char>>)
    requires
        strictly_sorted(a),
        strictly_sorted(b),
        a.to_set() == b.to_set(),
    ensures
        a == b,
    decreases a.len(),
{
    if a.len() == 0 {
        if b.len() > 0 {
            assert(b.to_set().contains(b[0]));
        }
        assert(a =~= b);
    } else {
        assert(a.to_set().contains(a[0]));
        assert(b.contains(a[0]));
        assert(b.len() > 0);
        assert(b.to_set().contains(b[0]));
        assert(a.contains(b[0]));
        let k = choose|k: int| 0 <= k < b.len() && b[k] == a[0];
        let m = choose|m: int| 0 <= m < a.len() && a[m] == b[0];
        lemma_seq_less_total(a[0], b[0]);
        if k > 0 && m > 0 {
            assert(seq_less(b[0], b[k]));
            assert(seq_less(a[0], a[m]));
        }
        assert(b[0] == a[0]);
        let ra = a.drop_first();
        let rb = b.drop_first();
        assert forall|i: int, j: int| 0 <= i < j < ra.len() implies seq_less(#[trigger] ra[i], #[trigger] ra[j]) by {
            assert(ra[i] == a[i + 1] && ra[j] == a[j + 1]);
        }
        assert forall|i: int, j: int| 0 <= i < j < rb.len() implies seq_less(#[trigger] rb[i], #[trigger] rb[j]) by {
            assert(rb[i] == b[i + 1] && rb[j] == b[j + 1]);
        }
        assert forall|x: Seq<char>| ra.contains(x) <==> (a.contains(x) && x != a[0]) by {
            if ra.contains(x) {
                let i = choose|i: int| 0 <= i < ra.len() && ra[i] == x;
                assert(a[i + 1] == x);
                assert(seq_less(a[0], a[i + 1]));
                lemma_seq_less_irreflexive(x);
            }
            if a.contains(x) && x != a[0] {
                let i = choose|i: int| 0 <= i < a.len() && a[i] == x;
                assert(i != 0);
                assert(ra[i - 1] == x);
            }
        }
        assert forall|x: Seq<char>| rb.contains(x) <==> (b.contains(x) && x != b[0]) by {
            if rb.contains(x) {
                let i = choose|i: int| 0 <= i < rb.len() && rb[i] == x;
                assert(b[i + 1] == x);
                assert(seq_less(b[0], b[i + 1]));
                lemma_seq_less_irreflexive(x);
            }
            if b.contains(x) && x != b[0] {
                let i = choose|i: int| 0 <= i < b.len() && b[i] == x;
                assert(i != 0);
                assert(rb[i - 1] == x);
            }
        }
        assert forall|x: Seq<char>| a.contains(x) <==> b.contains(x) by {
            if a.contains(x) {
                assert(a.to_set().contains(x));
                assert(b.to_set().contains(x));
            }
            if b.contains(x) {
                assert(b.to_set().contains(x));
                assert(a.to_set().contains(x));
            }
        }
        assert(ra.to_set() =~= rb.to_set());
        law_strictly_sorted_unique(ra, rb);
        assert(a =~= seq![a[0]] + ra);
        assert(b =~= seq![b[0]] + rb);
    }
}

/// A reply reads back as it was sent: the UTF-8 bytes of a JSON reply decode
/// to its text, and parsing that text gives the status code and the body that
/// were sent, with the reply's two header lines.
pub proof fn law_reply_read_back(status: u16, body: Seq<char>)
    ensures
        vstd::utf8::valid_utf8(vstd::utf8::encode_utf8(spec_response_text(status, body))),
        vstd::utf8::decode_utf8(vstd::utf8::encode_utf8(spec_response_text(status, body))) == spec_response_text(
            status,
            body,
        ),
        response_status(spec_response_text(status, body)) == status,
        message_parts(spec_response_text(status, body)).1 == body,
        head_lines(spec_response_text(status, body)).drop_first() == reply_headers(body),
{
    let text = spec_response_text(status, body);
    vstd::utf8::encode_utf8_valid_utf8(text);
    vstd::utf8::encode_utf8_decode_utf8(text);
    lemma_reply_split(status, body);
    lemma_reply_lines(status, body);
    lemma_status_word(status);
    assert(head_lines(text)[0] == status_line(status));
    assert(start_word(text, 1) == crate::text::decimal(status as nat));
    lemma_parse_decimal(status as nat, 65535);
    assert(head_lines(text).drop_first() =~= reply_headers(body));
}

/// A request reads back as it was sent: when its method, path and version
/// are words and its header lines are nonempty and hold no carriage return,
/// its UTF-8 bytes decode to its text, and parsing that text gives back its
/// method, path, version, header lines and body.
pub proof fn law_request_read_back(r: Request)
    requires
        is_word(r.method@),
        is_word(r.path@),
        is_word(r.version@),
        forall|k: int| 0 <= k < r.headers@.len() ==> (#[trigger] r.headers@[k])@.len() > 0 && no_cr(r.headers@[k]@),
    ensures
        vstd::utf8::valid_utf8(vstd::utf8::encode_utf8(request_text(r))),
        vstd::utf8::decode_utf8(vstd::utf8::encode_utf8(request_text(r))) == request_text(r),
        start_word(request_text(r), 0) == r.method@,
        start_word(request_text(r), 1) == r.path@,
        start_word(request_text(r), 2) == r.version@,
        head_lines(request_text(r)).drop_first() == views(r.headers@),
        message_parts(request_text(r)).1 == r.body@,
{
    let text = request_text(r);
    vstd::utf8::encode_utf8_valid_utf8(text);
    vstd::utf8::encode_utf8_decode_utf8(text);
    lemma_request_parts(r);
    let l0 = r.method@ + " "@ + r.path@ + " "@ + r.version@;
    assert(head_lines(text)[0] == l0);
    assert(head_lines(text).drop_first() =~= views(r.headers@));
}

/// The leader accepts its own commit: on a node that leads the round, with
/// the round's members sorted and each once, a commit of the next round on
/// its ledger, signed off by a quorum of distinct members and holding (in any
/// order) the new entries of their proposals, each matching its id, passes
/// every check that applying it makes.
pub proof fn law_leader_accepts_own_commit(
    state: NodeState,
    members: Seq<String>,
    proposals: Seq<Proposal>,
    c: Commit,
)
    requires
        state.wf(),
        strictly_sorted(views(members)),
        views(members).to_set() == member_set(state),
        members.len() >= 1,
        members[leader_index(members.len(), state.next_round)]@ == state.addr@,
        proposals.len() >= spec_quorum(members.len()),
        proposals.map_values(|p: Proposal| p.addr@).no_duplicates(),
        forall|i: int| 0 <= i < proposals.len() ==> member_set(state).contains(#[trigger] proposals[i].addr@),
        forall|k: int|
            0 <= k < fresh_entries(all_pending(proposals), state.ledger_ids.items()).len() ==> entry_id_ok(
                #[trigger] fresh_entries(all_pending(proposals), state.ledger_ids.items())[k],
            ),
        c.payload.round == state.next_round,
        c.payload.prev_ledger_hash@ == state.ledger_hash@,
        c.payload.leader@ == state.addr@,
        c.payload.members@ == members,
        views(c.payload.votes@) == proposals.map_values(|p: Proposal| p.addr@),
        c.payload.txs@.to_multiset() == fresh_entries(all_pending(proposals), state.ledger_ids.items()).to_multiset(),
        c.commit_hash@ == crate::crypto::spec_commit_hash(c.payload),
    ensures
        commit_error(state, c) is None,
{
    let p = c.payload;
    let ms = views(members);
    let votes = views(p.votes@);
    let fresh = fresh_entries(all_pending(proposals), state.ledger_ids.items());
    let txs = p.txs@;
    assert(views(p.members@) == ms);
    assert forall|i: int| 0 <= i < ms.len() - 1 implies seq_less(#[trigger] ms[i], ms[i + 1]) by {}
    assert(ms.contains(p.leader@)) by {
        assert(ms[leader_index(members.len(), state.next_round)] == p.leader@);
    }
    let addrs = proposals.map_values(|q: Proposal| q.addr@);
    assert(votes == addrs);
    assert(votes.len() == p.votes@.len());
    assert(addrs.len() == proposals.len());
    assert forall|i: int| 0 <= i < p.votes@.len() implies ms.contains(#[trigger] p.votes@[i]@) by {
        assert(votes[i] == p.votes@[i]@);
        assert(addrs[i] == proposals[i].addr@);
        assert(ms.to_set().contains(p.votes@[i]@));
    }
    assert(p.votes@.len() == proposals.len());
    lemma_fresh_entries(all_pending(proposals), state.ledger_ids.items());
    assert(fresh.no_duplicates()) by {
        assert forall|a: int, b: int| 0 <= a < fresh.len() && 0 <= b < fresh.len() && a != b implies fresh[a]
            != fresh[b] by {
            assert(entry_ids(fresh)[a] == fresh[a].id@);
            assert(entry_ids(fresh)[b] == fresh[b].id@);
        }
    }
    fresh.lemma_multiset_has_no_duplicates();
    txs.lemma_multiset_has_no_duplicates_conv();
    assert forall|k: int| 0 <= k < txs.len() implies fresh.contains(#[trigger] txs[k]) by {
        assert(txs.contains(txs[k]));
        vstd::seq_lib::to_multiset_contains(txs, txs[k]);
        vstd::seq_lib::to_multiset_contains(fresh, txs[k]);
    }
    assert forall|k: int| 0 <= k < txs.len() implies entry_id_ok(#[trigger] txs[k]) && !state.ledger_ids.items().contains(
        txs[k].id@,
    ) by {
        assert(fresh.contains(txs[k]));
        let a = choose|a: int| 0 <= a < fresh.len() && fresh[a] == txs[k];
        assert(fresh[a].id@ == txs[k].id@);
    }
    assert(entry_ids(txs).no_duplicates()) by {
        assert forall|i: int, j: int| 0 <= i < entry_ids(txs).len() && 0 <= j < entry_ids(txs).len() && i != j
            implies entry_ids(txs)[i] != entry_ids(txs)[j] by {
            assert(txs[i] != txs[j]);
            assert(fresh.contains(txs[i]));
            assert(fresh.contains(txs[j]));
            let a = choose|a: int| 0 <= a < fresh.len() && fresh[a] == txs[i];
            let b = choose|b: int| 0 <= b < fresh.len() && fresh[b] == txs[j];
            assert(a != b);
            assert(entry_ids(fresh)[a] != entry_ids(fresh)[b]);
        }
    }
    lemma_entries_clean(txs, state.ledger_ids.items(), txs.len());
}

/// The transactions of a candidate replay on the branch of the tip it was
/// built on, when the reward's id is new there and among the transfers.
proof fn lemma_candidate_replays(chain: ChainState, txs: Seq<crate::models::SignedTransaction>, creator: Seq<char>, ts: u64, max_txs: nat)
    requires
        chain.wf(),
        chain.best().height < u64::MAX,
        txs.len() >= 1,
        crate::transaction::spec_reward_payload(creator, ts, txs[0].payload),
        txs[0].signature@.len() == 0,
        crate::transaction::id_matches(txs[0]),
        txs.skip(1) == spec_selection(chain, chain.best().block.hash@, max_txs),
        !chain.ids_at(chain.best_tip@).items().contains(txs[0].id@),
        forall|k: int| 1 <= k < txs.len() ==> (#[trigger] txs[k]).id@ != txs[0].id@,
    ensures
        spec_replay_block(
            chain.balances_at(chain.best().block.hash@).entries(),
            chain.ids_at(chain.best().block.hash@).items(),
            txs,
            creator,
        ) is Applied,
{
    lemma_wf_keys(chain);
    let ph = chain.best().block.hash@;
    assert(ph == chain.best_tip@);
    let e0 = chain.balances_at(ph).entries();
    let ids0 = chain.ids_at(ph).items();
    chain.balances_at(ph).lemma_wf_keys();
    assert(chain.balances_at(ph).total() == chain.best().height as int * BLOCK_REWARD as int);
    let pool = chain.pool();
    let sel = spec_selection(chain, ph, max_txs);
    assert(sel == select_prefix(pool, e0, ids0, max_txs, pool.len()).0);
    assert forall|k: int| 0 <= k < sel.len() implies txs[k + 1] == #[trigger] sel[k] by {
        assert(txs.skip(1)[k] == txs[k + 1]);
    }
    lemma_selection_replays(pool, e0, ids0, max_txs, pool.len(), txs, creator);
    assert(replay_prefix(e0, ids0, txs, creator, txs.len()) is Applied);
}

/// A block mined on the selected tip extends it: the candidate, with a nonce
/// whose hash meets the proof of work, passes every check of a child of the
/// tip and its transactions replay on the tip's branch, provided the reward's
/// id is new on that branch and differs from the selected transfers' ids.
pub proof fn law_mined_block_extends_tip(
    chain: ChainState,
    c: Candidate,
    difficulty: u32,
    creator: Seq<char>,
    now_ms: u64,
    max_txs: nat,
    block: Block,
)
    requires
        chain.wf(),
        chain.best().height < u64::MAX,
        chain.best().block.header.timestamp < u64::MAX,
        is_candidate(c, chain, difficulty, creator, now_ms, max_txs),
        block.header == with_nonce(c.header, block.header.nonce),
        block.hash@ == crate::block::spec_block_hash(block.header),
        crate::block::spec_valid_pow(block.hash@, difficulty as nat),
        block.transactions@ == c.transactions@,
        !chain.ids_at(chain.best_tip@).items().contains(c.transactions@[0].id@),
        forall|k: int| 1 <= k < c.transactions@.len() ==> (#[trigger] c.transactions@[k]).id@ != c.transactions@[0].id@,
    ensures
        extend_outcome(chain, block, chain.best(), difficulty) is Applied,
{
    let parent = chain.best();
    let ts = crate::mining::candidate_timestamp(now_ms, parent.block.header.timestamp);
    lemma_candidate_replays(chain, c.transactions@, creator, ts, max_txs);
    lemma_wf_keys(chain);
    assert(block.header.creator@ == creator);
    assert(block.header.timestamp > 0);
    assert(crate::block::basic_block_error(block, difficulty) is None);
}

} // verus!
