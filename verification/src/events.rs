//! The event log: the messages a node records for transfers, blocks and tip
//! changes, and the bounded list of recent events.
use vstd::prelude::*;

use crate::chain::{BlockAddOutcome, BlockAddStatus, ChainState};
use crate::crypto::short_hash;
use crate::indexed::block_map_get;
use crate::models::{EventRecord, SignedTransaction, EVENT_LIMIT};
use crate::text::{decimal, owned, push_decimal, push_str, str_equal};

use std::collections::VecDeque;

verus! {

/// The first eight characters of a hash (all of it when shorter).
pub open spec fn short(hash: Seq<char>) -> Seq<char> {
    hash.take(if hash.len() < 8 { hash.len() as int } else { 8 })
}

/// The log message for a transfer.
pub open spec fn spec_tx_event_message(action: Seq<char>, tx: SignedTransaction) -> Seq<char> {
    action + " id="@ + short(tx.id@) + " from="@ + short(tx.payload.from@) + " to="@ + short(tx.payload.to@)
        + " amount="@ + decimal(tx.payload.amount as nat)
}

/// The log message for a transfer: the action, then shortened id, sender and
/// recipient, and the amount.
pub fn tx_event_message(action: &str, tx: &SignedTransaction) -> (res: String)
    ensures
        res@ == spec_tx_event_message(action@, *tx),
{
    let mut out = owned(action);
    push_str(&mut out, " id=");
    push_str(&mut out, &short_hash(&tx.id));
    push_str(&mut out, " from=");
    push_str(&mut out, &short_hash(&tx.payload.from));
    push_str(&mut out, " to=");
    push_str(&mut out, &short_hash(&tx.payload.to));
    push_str(&mut out, " amount=");
    push_decimal(&mut out, tx.payload.amount);
    out
}

/// Whether moving the tip from `old_tip` to `new_tip` dropped blocks: the new
/// tip is stored and does not sit directly on the old one.
pub open spec fn spec_tip_switch_is_reorg(chain: ChainState, old_tip: Seq<char>, new_tip: Seq<char>) -> bool {
    chain.knows(new_tip) && chain.stored(new_tip).block.header.previous_hash@ != old_tip && old_tip != new_tip
}

/// Whether a block outcome switched the tip to another branch.
pub fn tip_switch_is_reorg(chain: &ChainState, outcome: &BlockAddOutcome) -> (res: bool)
    ensures
        res == spec_tip_switch_is_reorg(*chain, outcome.old_tip@, outcome.new_tip@),
{
    match block_map_get(&chain.blocks, &outcome.new_tip) {
        None => false,
        Some(new_tip) => !str_equal(&new_tip.block.header.previous_hash, &outcome.old_tip) && !str_equal(
            &outcome.old_tip,
            &outcome.new_tip,
        ),
    }
}

/// The stored height of a block, or 0 when it is not stored.
pub open spec fn height_or_zero(chain: ChainState, hash: Seq<char>) -> nat {
    if chain.knows(hash) { chain.stored(hash).height as nat } else { 0 }
}

fn stored_height(chain: &ChainState, hash: &str) -> (res: u64)
    ensures
        res as nat == height_or_zero(*chain, hash@),
{
    match block_map_get(&chain.blocks, hash) {
        Some(sb) => sb.height,
        None => 0,
    }
}

/// The message for a connected block.
pub open spec fn added_message(height: u64, hash: Seq<char>) -> Seq<char> {
    "added height="@ + decimal(height as nat) + " hash="@ + short(hash)
}

/// The message for a connected block.
pub fn block_added_message(block: &crate::models::Block) -> (res: String)
    ensures
        res@ == added_message(block.header.height, block.hash@),
{
    let mut msg = owned("added height=");
    push_decimal(&mut msg, block.header.height);
    push_str(&mut msg, " hash=");
    push_str(&mut msg, &short_hash(&block.hash));
    msg
}

/// The message for a block that waits for its parent.
pub open spec fn spec_orphan_message(hash: Seq<char>, previous_hash: Seq<char>) -> Seq<char> {
    "orphan hash="@ + short(hash) + " waiting_for="@ + short(previous_hash)
}

/// The message for a block that waits for its parent.
pub fn orphan_message(block: &crate::models::Block) -> (res: String)
    ensures
        res@ == spec_orphan_message(block.hash@, block.header.previous_hash@),
{
    let mut msg = owned("orphan hash=");
    push_str(&mut msg, &short_hash(&block.hash));
    push_str(&mut msg, " waiting_for=");
    push_str(&mut msg, &short_hash(&block.header.previous_hash));
    msg
}

/// The message for a refused transfer or block.
pub open spec fn spec_rejected_message(error: Seq<char>) -> Seq<char> {
    "rejected reason=\""@ + error + "\""@
}

/// The message for a refused transfer or block.
pub fn rejected_message(error: &str) -> (res: String)
    ensures
        res@ == spec_rejected_message(error@),
{
    let mut msg = owned("rejected reason=\"");
    push_str(&mut msg, error);
    push_str(&mut msg, "\"");
    msg
}

/// The message for a peer heard of for the first time.
pub open spec fn spec_discovered_message(peer: Seq<char>) -> Seq<char> {
    "discovered "@ + peer
}

/// The message for a peer heard of for the first time.
pub fn discovered_message(peer: &str) -> (res: String)
    ensures
        res@ == spec_discovered_message(peer@),
{
    let mut msg = owned("discovered ");
    push_str(&mut msg, peer);
    msg
}

/// The message for a switch to another branch.
pub open spec fn reorg_message(chain: ChainState, old_tip: Seq<char>, new_tip: Seq<char>) -> Seq<char> {
    "reorg old="@ + short(old_tip) + " height="@ + decimal(height_or_zero(chain, old_tip)) + " new="@
        + short(new_tip) + " height="@ + decimal(height_or_zero(chain, new_tip))
}

/// The message for an orphan that failed to connect.
pub open spec fn rejected_orphan_message(hash: Seq<char>, error: Seq<char>) -> Seq<char> {
    "rejected orphan="@ + short(hash) + " reason=\""@ + error + "\""@
}

/// The events for the connected blocks, in order.
pub open spec fn added_events(blocks: Seq<crate::models::Block>) -> Seq<(Seq<char>, Seq<char>)> {
    blocks.map_values(|b: crate::models::Block| ("block"@, added_message(b.header.height, b.hash@)))
}

/// The events for the orphans that failed to connect, in order.
pub open spec fn rejected_events(rejected: Seq<(String, String)>) -> Seq<(Seq<char>, Seq<char>)> {
    rejected.map_values(|r: (String, String)| ("block"@, rejected_orphan_message(r.0@, r.1@)))
}

/// The events a block outcome leads to, as (kind, message) pairs: for an added
/// block, one per connected block, one for a switch of branch, and one per
/// orphan that failed; nothing for a duplicate or an orphan.
pub open spec fn spec_block_outcome_events(chain: ChainState, outcome: BlockAddOutcome) -> Seq<(Seq<char>, Seq<char>)> {
    if outcome.status == BlockAddStatus::Added {
        let reorg = if outcome.old_tip@ != outcome.new_tip@ && spec_tip_switch_is_reorg(
            chain,
            outcome.old_tip@,
            outcome.new_tip@,
        ) {
            seq![("chain"@, reorg_message(chain, outcome.old_tip@, outcome.new_tip@))]
        } else {
            Seq::empty()
        };
        added_events(outcome.added_blocks@) + reorg + rejected_events(outcome.rejected_orphans@)
    } else {
        Seq::empty()
    }
}

/// The views of a list of (kind, message) pairs.
pub open spec fn note_views(v: Seq<(String, String)>) -> Seq<(Seq<char>, Seq<char>)> {
    v.map_values(|p: (String, String)| (p.0@, p.1@))
}

/// The events to record for a block outcome, as (kind, message) pairs.
pub fn block_outcome_events(chain: &ChainState, outcome: &BlockAddOutcome) -> (res: Vec<(String, String)>)
    ensures
        note_views(res@) == spec_block_outcome_events(*chain, *outcome),
{
    let mut notes: Vec<(String, String)> = Vec::new();
    if outcome.status != BlockAddStatus::Added {
        assert(note_views(notes@) =~= Seq::<(Seq<char>, Seq<char>)>::empty());
        return notes;
    }
    let mut i: usize = 0;
    while i < outcome.added_blocks.len()
        invariant
            i <= outcome.added_blocks@.len(),
            note_views(notes@) == added_events(outcome.added_blocks@.take(i as int)),
        decreases outcome.added_blocks@.len() - i,
    {
        let block = &outcome.added_blocks[i];
        let msg = block_added_message(block);
        let ghost before = note_views(notes@);
        notes.push((owned("block"), msg));
        assert(note_views(notes@) =~= before.push(("block"@, added_message(block.header.height, block.hash@))));
        assert(added_events(outcome.added_blocks@.take(i + 1)) =~= added_events(
            outcome.added_blocks@.take(i as int),
        ).push(("block"@, added_message(block.header.height, block.hash@))));
        i = i + 1;
    }
    assert(outcome.added_blocks@.take(outcome.added_blocks@.len() as int) =~= outcome.added_blocks@);
    let ghost after_added = note_views(notes@);
    if !str_equal(&outcome.old_tip, &outcome.new_tip) && tip_switch_is_reorg(chain, outcome) {
        let mut msg = owned("reorg old=");
        push_str(&mut msg, &short_hash(&outcome.old_tip));
        push_str(&mut msg, " height=");
        push_decimal(&mut msg, stored_height(chain, &outcome.old_tip));
        push_str(&mut msg, " new=");
        push_str(&mut msg, &short_hash(&outcome.new_tip));
        push_str(&mut msg, " height=");
        push_decimal(&mut msg, stored_height(chain, &outcome.new_tip));
        notes.push((owned("chain"), msg));
        assert(note_views(notes@) =~= after_added.push(
            ("chain"@, reorg_message(*chain, outcome.old_tip@, outcome.new_tip@)),
        ));
    } else {
        assert(note_views(notes@) =~= after_added + Seq::<(Seq<char>, Seq<char>)>::empty());
    }
    let ghost after_reorg = note_views(notes@);
    let mut j: usize = 0;
    while j < outcome.rejected_orphans.len()
        invariant
            j <= outcome.rejected_orphans@.len(),
            note_views(notes@) == after_reorg + rejected_events(outcome.rejected_orphans@.take(j as int)),
        decreases outcome.rejected_orphans@.len() - j,
    {
        let (hash, error) = &outcome.rejected_orphans[j];
        let mut msg = owned("rejected orphan=");
        push_str(&mut msg, &short_hash(hash));
        push_str(&mut msg, " reason=\"");
        push_str(&mut msg, error);
        push_str(&mut msg, "\"");
        let ghost before = note_views(notes@);
        notes.push((owned("block"), msg));
        assert(note_views(notes@) =~= before.push(("block"@, rejected_orphan_message(hash@, error@))));
        assert(rejected_events(outcome.rejected_orphans@.take(j + 1)) =~= rejected_events(
            outcome.rejected_orphans@.take(j as int),
        ).push(("block"@, rejected_orphan_message(hash@, error@))));
        assert(note_views(notes@) =~= after_reorg + rejected_events(outcome.rejected_orphans@.take(j + 1)));
        j = j + 1;
    }
    assert(outcome.rejected_orphans@.take(outcome.rejected_orphans@.len() as int) =~= outcome.rejected_orphans@);
    notes
}

/// How many of the oldest events go when `len` events are over the limit.
pub open spec fn excess(len: nat) -> int {
    if len > EVENT_LIMIT { len - EVENT_LIMIT } else { 0 }
}

/// Appends an event to the recent events, dropping the oldest ones beyond the
/// limit.
pub fn push_recent_event(events: &mut VecDeque<EventRecord>, event: EventRecord)
    ensures
        final(events)@ == old(events)@.push(event).skip(excess(old(events)@.len() + 1)),
        final(events)@.len() <= EVENT_LIMIT,
{
    events.push_back(event);
    let ghost all = events@;
    while events.len() > EVENT_LIMIT
        invariant
            all.len() >= events@.len(),
            events@ == all.skip(all.len() - events@.len()),
            all.len() > EVENT_LIMIT ==> events@.len() >= EVENT_LIMIT,
            all.len() <= EVENT_LIMIT ==> events@ == all,
        decreases events@.len(),
    {
        events.pop_front();
        assert(events@ =~= all.skip(all.len() - events@.len()));
    }
    assert(events@ =~= all.skip(excess(all.len())));
}

} // verus!
