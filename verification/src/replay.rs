//! Replaying a block's transactions on its parent's balances and ids: the
//! ledger rules of a block (one reward, first; valid transfers; no repeated
//! ids on a branch; no overdraft).
use vstd::prelude::*;

use crate::models::{Block, SignedTransaction, BLOCK_REWARD};
use crate::store::{lookup, store_entry, sum_values, Balances, StringSet};
use crate::text::{is_err_with, owned};
use crate::transaction::{
    is_reward_transaction, normal_validation_error, reward_transaction_error, spec_is_reward,
    spec_valid_normal, validate_normal_transaction, validate_reward_transaction,
};

verus! {

/// Balances as entry lists and id sets as sequences, as the rules see them.
pub enum Replay {
    /// The transactions apply, giving these balances and ids.
    Applied(Seq<(Seq<char>, u64)>, Seq<Seq<char>>),
    /// The transactions are refused, with the message of the rule they break
    /// where one is fixed.
    Rejected(Option<Seq<char>>),
}

/// The balance of an account in an entry list (0 when never credited).
pub open spec fn bal(e: Seq<(Seq<char>, u64)>, account: Seq<char>) -> u64 {
    match lookup(e, account) {
        Some(v) => v,
        None => 0,
    }
}

/// Replaying one transaction at position `index` of a block made by `creator`.
pub open spec fn replay_step(
    e: Seq<(Seq<char>, u64)>,
    ids: Seq<Seq<char>>,
    tx: SignedTransaction,
    index: int,
    creator: Seq<char>,
) -> Replay {
    if spec_is_reward(tx) {
        if index != 0 {
            Replay::Rejected(Some("reward transaction must be first"@))
        } else if reward_transaction_error(tx, creator) is Some {
            Replay::Rejected(reward_transaction_error(tx, creator))
        } else if ids.contains(tx.id@) {
            Replay::Rejected(Some("duplicate transaction id in branch"@))
        } else {
            Replay::Applied(
                store_entry(e, tx.payload.to@, (bal(e, tx.payload.to@) + tx.payload.amount) as u64),
                ids.push(tx.id@),
            )
        }
    } else if !spec_valid_normal(tx) {
        Replay::Rejected(normal_validation_error(tx))
    } else if ids.contains(tx.id@) {
        Replay::Rejected(Some("duplicate transaction id in branch"@))
    } else if bal(e, tx.payload.from@) < tx.payload.amount {
        Replay::Rejected(Some("sender balance is insufficient"@))
    } else {
        let e1 = store_entry(e, tx.payload.from@, (bal(e, tx.payload.from@) - tx.payload.amount) as u64);
        Replay::Applied(
            store_entry(e1, tx.payload.to@, (bal(e1, tx.payload.to@) + tx.payload.amount) as u64),
            ids.push(tx.id@),
        )
    }
}

/// Replaying the first `n` transactions of a block.
pub open spec fn replay_prefix(
    e: Seq<(Seq<char>, u64)>,
    ids: Seq<Seq<char>>,
    txs: Seq<SignedTransaction>,
    creator: Seq<char>,
    n: nat,
) -> Replay
    decreases n,
{
    if n == 0 {
        Replay::Applied(e, ids)
    } else {
        match replay_prefix(e, ids, txs, creator, (n - 1) as nat) {
            Replay::Rejected(m) => Replay::Rejected(m),
            Replay::Applied(e2, ids2) => replay_step(e2, ids2, txs[n - 1], n - 1, creator),
        }
    }
}

/// Replaying a whole block: it must hold transactions, and exactly one reward.
pub open spec fn spec_replay_block(
    e: Seq<(Seq<char>, u64)>,
    ids: Seq<Seq<char>>,
    txs: Seq<SignedTransaction>,
    creator: Seq<char>,
) -> Replay {
    if txs.len() == 0 {
        Replay::Rejected(Some("block must contain one reward transaction"@))
    } else {
        match replay_prefix(e, ids, txs, creator, txs.len()) {
            Replay::Rejected(m) => Replay::Rejected(m),
            Replay::Applied(e2, ids2) => if spec_is_reward(txs[0]) {
                Replay::Applied(e2, ids2)
            } else {
                Replay::Rejected(Some("block must contain exactly one reward transaction"@))
            },
        }
    }
}

/// A result that agrees with a replay outcome.
pub open spec fn result_agrees<T>(res: Result<T, String>, outcome: Replay) -> bool {
    match outcome {
        Replay::Applied(_, _) => res is Ok,
        Replay::Rejected(Some(m)) => is_err_with(res, m),
        Replay::Rejected(None) => res is Err,
    }
}

/// Once a prefix is refused, every longer prefix is refused the same way.
pub proof fn lemma_rejected_stays(
    e: Seq<(Seq<char>, u64)>,
    ids: Seq<Seq<char>>,
    txs: Seq<SignedTransaction>,
    creator: Seq<char>,
    n: nat,
    m: nat,
)
    requires
        n <= m,
        replay_prefix(e, ids, txs, creator, n) is Rejected,
    ensures
        replay_prefix(e, ids, txs, creator, m) == replay_prefix(e, ids, txs, creator, n),
    decreases m - n,
{
    if n < m {
        lemma_rejected_stays(e, ids, txs, creator, n, (m - 1) as nat);
    }
}

/// A block whose transactions are refused at some prefix is refused that way.
pub proof fn lemma_block_refused(
    e: Seq<(Seq<char>, u64)>,
    ids: Seq<Seq<char>>,
    txs: Seq<SignedTransaction>,
    creator: Seq<char>,
    n: nat,
)
    requires
        0 < n <= txs.len(),
        replay_prefix(e, ids, txs, creator, n) is Rejected,
    ensures
        spec_replay_block(e, ids, txs, creator) == replay_prefix(e, ids, txs, creator, n),
{
    lemma_rejected_stays(e, ids, txs, creator, n, txs.len());
}

/// A prefix that applies has each of its transactions passing its rule: a
/// reward only first and valid for the creator, any other a valid transfer.
pub proof fn lemma_applied_steps(
    e: Seq<(Seq<char>, u64)>,
    ids: Seq<Seq<char>>,
    txs: Seq<SignedTransaction>,
    creator: Seq<char>,
    n: nat,
)
    requires
        n <= txs.len(),
        replay_prefix(e, ids, txs, creator, n) is Applied,
    ensures
        forall|i: int| 0 <= i < n ==> (spec_is_reward(#[trigger] txs[i]) ==> i == 0 && reward_transaction_error(
            txs[i],
            creator,
        ) is None),
        forall|i: int| 0 <= i < n ==> (!spec_is_reward(#[trigger] txs[i]) ==> spec_valid_normal(txs[i])),
    decreases n,
{
    if n > 0 {
        let prev = replay_prefix(e, ids, txs, creator, (n - 1) as nat);
        if prev is Rejected {
            assert(replay_prefix(e, ids, txs, creator, n) is Rejected);
        } else {
            lemma_applied_steps(e, ids, txs, creator, (n - 1) as nat);
        }
    }
}

/// Applies a block's transactions to its parent's balances and ids, checking
/// the block's ledger rules.
pub fn validate_and_apply_transactions(block: &Block, balances: &mut Balances, tx_ids: &mut StringSet) -> (res: Result<(), String>)
    requires
        old(balances).wf(),
        old(tx_ids).wf(),
        old(balances).total() + BLOCK_REWARD <= u64::MAX,
    ensures
        result_agrees(
            res,
            spec_replay_block(old(balances).entries(), old(tx_ids).items(), block.transactions@, block.header.creator@),
        ),
        spec_replay_block(old(balances).entries(), old(tx_ids).items(), block.transactions@, block.header.creator@)
            matches Replay::Applied(e, ids) ==> {
            &&& final(balances).entries() == e
            &&& final(tx_ids).items() == ids
            &&& final(balances).wf()
            &&& final(tx_ids).wf()
            &&& final(balances).total() == old(balances).total() + BLOCK_REWARD
            &&& ids.len() == old(tx_ids).items().len() + block.transactions@.len()
        },
{
    let ghost e0 = balances.entries();
    let ghost i0 = tx_ids.items();
    let ghost txs = block.transactions@;
    let ghost creator = block.header.creator@;
    if block.transactions.len() == 0 {
        return Err(owned("block must contain one reward transaction"));
    }
    let mut reward_count: usize = 0;
    let mut index: usize = 0;
    while index < block.transactions.len()
        invariant
            e0 == old(balances).entries(),
            i0 == old(tx_ids).items(),
            sum_values(e0) == old(balances).total(),
            txs == block.transactions@,
            creator == block.header.creator@,
            txs.len() > 0,
            index <= txs.len(),
            balances.wf(),
            tx_ids.wf(),
            replay_prefix(e0, i0, txs, creator, index as nat) == Replay::Applied(balances.entries(), tx_ids.items()),
            reward_count == (if index > 0 && spec_is_reward(txs[0]) { 1usize } else { 0usize }),
            balances.total() == sum_values(e0) + reward_count * BLOCK_REWARD,
            sum_values(e0) + BLOCK_REWARD <= u64::MAX,
            tx_ids.items().len() == i0.len() + index,
        decreases txs.len() - index,
    {
        let tx = &block.transactions[index];
        let ghost before_e = balances.entries();
        let ghost before_ids = tx_ids.items();
        assert(*tx == txs[index as int]);
        assert(replay_prefix(e0, i0, txs, creator, (index + 1) as nat) == replay_step(
            before_e,
            before_ids,
            txs[index as int],
            index as int,
            creator,
        ));
        let reward = is_reward_transaction(tx);
        if reward {
            if index != 0 {
                proof { lemma_block_refused(e0, i0, txs, creator, (index + 1) as nat); }
                return Err(owned("reward transaction must be first"));
            }
            reward_count = reward_count + 1;
            match validate_reward_transaction(tx, &block.header.creator) {
                Ok(()) => {},
                Err(error) => {
                    proof { lemma_block_refused(e0, i0, txs, creator, (index + 1) as nat); }
                    return Err(error);
                },
            }
        } else {
            match validate_normal_transaction(tx) {
                Ok(()) => {},
                Err(error) => {
                    proof { lemma_block_refused(e0, i0, txs, creator, (index + 1) as nat); }
                    return Err(error);
                },
            }
        }
        if !tx_ids.insert(&tx.id) {
            proof { lemma_block_refused(e0, i0, txs, creator, (index + 1) as nat); }
            return Err(owned("duplicate transaction id in branch"));
        }
        if reward {
            proof { balances.lemma_balance_le_total(tx.payload.to@); }
            let balance = balances.get(&tx.payload.to);
            balances.set(&tx.payload.to, balance + tx.payload.amount);
        } else {
            let from_balance = balances.get(&tx.payload.from);
            if from_balance < tx.payload.amount {
                proof { lemma_block_refused(e0, i0, txs, creator, (index + 1) as nat); }
                return Err(owned("sender balance is insufficient"));
            }
            balances.set(&tx.payload.from, from_balance - tx.payload.amount);
            proof { balances.lemma_balance_le_total(tx.payload.to@); }
            let to_balance = balances.get(&tx.payload.to);
            balances.set(&tx.payload.to, to_balance + tx.payload.amount);
        }
        index = index + 1;
    }
    if reward_count != 1 {
        return Err(owned("block must contain exactly one reward transaction"));
    }
    Ok(())
}

} // verus!
