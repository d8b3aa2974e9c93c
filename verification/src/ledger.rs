//! A node's committed ledger of round-ordered entries: local entries,
//! ingestion with id checks, and the ledger hash.
use vstd::prelude::*;

use crate::consensus::NodeState;
use crate::crypto::{hash_json, spec_entry_id, spec_sha256_hex, transaction_id};
use crate::indexed::{ledger_pool_contains, ledger_pool_insert, ledger_pool_shift_remove};
use crate::json::json_transaction_array;
use crate::models::{Transaction, UnsignedTransaction, GENESIS_LEDGER_HASH};
use crate::text::{is_err_with, owned};

verus! {

/// What became of an ingested entry.
#[derive(Clone, Copy, Debug, PartialEq, Eq, Structural)]
pub enum IngestResult {
    Accepted,
    AlreadyKnown,
}

/// The content an entry's id is computed from.
pub open spec fn entry_unsigned(tx: Transaction) -> UnsignedTransaction {
    UnsignedTransaction { origin: tx.origin, seq: tx.seq, body: tx.body }
}

/// An entry whose id matches its content.
pub open spec fn entry_id_ok(tx: Transaction) -> bool {
    tx.id@ == spec_entry_id(entry_unsigned(tx))
}

/// The hash of a committed ledger: a fixed value while it is empty, otherwise
/// the hash of its canonical JSON array.
pub open spec fn spec_ledger_hash(ledger: Seq<Transaction>) -> Seq<char> {
    if ledger.len() == 0 {
        GENESIS_LEDGER_HASH@
    } else {
        spec_sha256_hex(json_transaction_array(ledger))
    }
}

/// Creates the node's next local entry with this body.
pub fn create_local_transaction(state: &mut NodeState, body: String) -> (res: Result<Transaction, String>)
    requires
        old(state).local_seq < u64::MAX,
    ensures
        final(state).local_seq == old(state).local_seq + 1,
        final(state).addr == old(state).addr,
        final(state).tx_pool == old(state).tx_pool,
        final(state).ledger == old(state).ledger,
        final(state).ledger_ids == old(state).ledger_ids,
        final(state).next_round == old(state).next_round,
        final(state).commits == old(state).commits,
        final(state).peers == old(state).peers,
        final(state).blocked_peers == old(state).blocked_peers,
        final(state).ledger_hash == old(state).ledger_hash,
        final(state).consensus_enabled == old(state).consensus_enabled,
        old(state).wf() ==> final(state).wf(),
        res matches Ok(tx) && {
            &&& tx.origin == old(state).addr
            &&& tx.seq == final(state).local_seq
            &&& tx.body == body
            &&& entry_id_ok(tx)
        },
{
    state.local_seq = state.local_seq + 1;
    let unsigned = UnsignedTransaction { origin: state.addr.clone(), seq: state.local_seq, body };
    let id = transaction_id(&unsigned)?;
    Ok(Transaction { id, origin: unsigned.origin, seq: unsigned.seq, body: unsigned.body })
}

/// Takes in an entry: checks its id, ignores it when already known, otherwise
/// puts it in the pool and, with consensus off, appends it to the ledger at once.
pub fn ingest_transaction(state: &mut NodeState, tx: Transaction) -> (res: Result<IngestResult, String>)
    requires
        old(state).wf(),
    ensures
        final(state).wf(),
        res is Err <==> !entry_id_ok(tx),
        !entry_id_ok(tx) ==> is_err_with(res, "transaction id does not match transaction content"@),
        !entry_id_ok(tx) ==> *final(state) == *old(state),
        entry_id_ok(tx) ==> res is Ok,
        res matches Ok(r) ==> (r == IngestResult::AlreadyKnown <==> (old(state).ledger_ids.has(tx.id@)
            || crate::store::has_key(old(state).pool(), tx.id@))),
        res matches Ok(IngestResult::AlreadyKnown) ==> *final(state) == *old(state),
        res is Ok ==> final(state).ledger_ids.has(tx.id@) || crate::store::has_key(final(state).pool(), tx.id@),
        res matches Ok(IngestResult::Accepted) && old(state).consensus_enabled ==> {
            &&& final(state).pool() == old(state).pool().push((tx.id@, tx))
            &&& final(state).ledger == old(state).ledger
            &&& final(state).ledger_ids == old(state).ledger_ids
        },
        res matches Ok(IngestResult::Accepted) && !old(state).consensus_enabled ==> {
            &&& final(state).pool() == old(state).pool()
            &&& final(state).ledger@ == old(state).ledger@.push(tx)
            &&& final(state).ledger_ids.items() == old(state).ledger_ids.items().push(tx.id@)
            &&& final(state).ledger_hash@ == spec_ledger_hash(final(state).ledger@)
        },
{
    validate_transaction(&tx)?;
    if state.ledger_ids.contains(&tx.id) || ledger_pool_contains(&state.tx_pool, &tx.id) {
        return Ok(IngestResult::AlreadyKnown);
    }
    let ghost pool0 = state.pool();
    ledger_pool_insert(&mut state.tx_pool, tx.id.clone(), tx.clone());
    if !state.consensus_enabled {
        proof {
            crate::store::lemma_store_entry(pool0, tx.id@, tx);
            crate::store::lemma_remove_entry(pool0.push((tx.id@, tx)), tx.id@);
            crate::store::lemma_index_of_unique(pool0.push((tx.id@, tx)), pool0.len() as int);
            assert(pool0.push((tx.id@, tx)).remove(pool0.len() as int) =~= pool0);
        }
        let ghost tid = tx.id@;
        append_direct(state, tx)?;
        assert(state.ledger_ids.items()[state.ledger_ids.items().len() - 1] == tid);
    } else {
        assert(state.pool()[pool0.len() as int].0 == tx.id@);
    }
    Ok(IngestResult::Accepted)
}

/// Checks that an entry's id matches its content.
pub fn validate_transaction(tx: &Transaction) -> (res: Result<(), String>)
    ensures
        res is Ok <==> entry_id_ok(*tx),
        !entry_id_ok(*tx) ==> is_err_with(res, "transaction id does not match transaction content"@),
{
    let unsigned = UnsignedTransaction { origin: tx.origin.clone(), seq: tx.seq, body: tx.body.clone() };
    let expected = transaction_id(&unsigned)?;
    if tx.id != expected {
        return Err(owned("transaction id does not match transaction content"));
    }
    Ok(())
}

/// Moves an entry from the pool straight into the ledger.
fn append_direct(state: &mut NodeState, tx: Transaction) -> (res: Result<(), String>)
    requires
        old(state).wf(),
        !old(state).ledger_ids.has(tx.id@),
    ensures
        final(state).wf(),
        res is Ok,
        final(state).pool() == crate::store::remove_entry(old(state).pool(), tx.id@),
        final(state).ledger@ == old(state).ledger@.push(tx),
        final(state).ledger_ids.items() == old(state).ledger_ids.items().push(tx.id@),
        final(state).ledger_hash@ == spec_ledger_hash(final(state).ledger@),
        final(state).addr == old(state).addr,
        final(state).next_round == old(state).next_round,
        final(state).consensus_enabled == old(state).consensus_enabled,
{
    ledger_pool_shift_remove(&mut state.tx_pool, &tx.id);
    if state.ledger_ids.insert(&tx.id) {
        state.ledger.push(tx);
        state.ledger_hash = ledger_hash(state.ledger.as_slice())?;
    }
    Ok(())
}

/// The hash of a committed ledger.
pub fn ledger_hash(ledger: &[Transaction]) -> (res: Result<String, String>)
    ensures
        res matches Ok(hash) && hash@ == spec_ledger_hash(ledger@),
{
    if ledger.len() == 0 {
        return Ok(owned(GENESIS_LEDGER_HASH));
    }
    hash_json(ledger)
}

} // verus!
