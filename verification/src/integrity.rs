//! Laws on what the block, ledger, sync and routing answers cover: a Merkle
//! root takes in every transaction id, a ledger hash its whole history, a
//! sync asks for every block after the shared prefix, and each documented
//! endpoint is reached by its own path.
use vstd::prelude::*;

use crate::block::{merkle_level, merkle_reduce, spec_merkle_root, tx_ids_of};
use crate::crypto::spec_sha256_hex;
use crate::http::{spec_route, target_path, Route};
use crate::json::{json_transaction_array, lemma_join_push, CanonicalJson};
use crate::ledger::spec_ledger_hash;
use crate::models::{SignedTransaction, Transaction, GENESIS_LEDGER_HASH};
use crate::scan::{find_at, lemma_find_at_absent, lemma_find_at_first, matches_at, split_once};
use crate::sync::{spec_common_prefix, spec_hashes_to_fetch};

verus! {

/// A level of two or more Merkle entries goes up to a level of half as many,
/// rounded up, and every entry is hashed into the entry at half its
/// position: one at an even position as the left half of the hashed text,
/// followed by the next entry (or by itself when it is the last), one at an
/// odd position as the right half, after the entry before it.
pub proof fn law_merkle_level_covers(level: Seq<Seq<char>>)
    requires
        level.len() >= 2,
    ensures
        merkle_level(level).len() == (level.len() + 1) / 2,
        forall|k: int|
            0 <= k < level.len() && k % 2 == 0 ==> merkle_level(level)[k / 2] == spec_sha256_hex(
                #[trigger] level[k] + level[if k + 1 < level.len() { k + 1 } else { k }],
            ),
        forall|k: int|
            0 <= k < level.len() && k % 2 == 1 ==> merkle_level(level)[k / 2] == spec_sha256_hex(
                level[k - 1] + #[trigger] level[k],
            ),
{
    let n = level.len() as int;
    let padded = if n % 2 == 1 { level.push(level.last()) } else { level };
    assert forall|k: int| 0 <= k < n && k % 2 == 0 implies merkle_level(level)[k / 2] == spec_sha256_hex(
        #[trigger] level[k] + level[if k + 1 < n { k + 1 } else { k }],
    ) by {
        assert(2 * (k / 2) == k);
        assert(padded[k] == level[k]);
        if k + 1 < n {
            assert(padded[k + 1] == level[k + 1]);
        } else {
            assert(n % 2 == 1);
            assert(padded[k + 1] == level[k]);
        }
    }
    assert forall|k: int| 0 <= k < n && k % 2 == 1 implies merkle_level(level)[k / 2] == spec_sha256_hex(
        level[k - 1] + #[trigger] level[k],
    ) by {
        assert(2 * (k / 2) == k - 1);
        assert(padded[k] == level[k]);
        assert(padded[k - 1] == level[k - 1]);
    }
}

/// Reducing Merkle levels: a single entry is the root, and a level of two or
/// more entries has the root of the level above it.
pub proof fn law_merkle_reduce_steps(level: Seq<Seq<char>>)
    requires
        level.len() >= 1,
    ensures
        level.len() == 1 ==> merkle_reduce(level) == level[0],
        level.len() >= 2 ==> merkle_reduce(level) == merkle_reduce(merkle_level(level)),
{
}

/// The Merkle root of a block's transactions: the digest of the empty text
/// for none, and otherwise the reduction of the transaction ids, in order,
/// so that the one transaction's id is the root of a single transaction.
pub proof fn law_merkle_root_of_ids(txs: Seq<SignedTransaction>)
    ensures
        txs.len() == 0 ==> spec_merkle_root(txs) == spec_sha256_hex(Seq::empty()),
        txs.len() >= 1 ==> spec_merkle_root(txs) == merkle_reduce(tx_ids_of(txs)),
        tx_ids_of(txs).len() == txs.len(),
        forall|i: int| 0 <= i < txs.len() ==> #[trigger] tx_ids_of(txs)[i] == txs[i].id@,
        txs.len() == 1 ==> spec_merkle_root(txs) == txs[0].id@,
{
}

/// With five transactions, whose ids are a to e, the root is
/// H(H(H(a+b)+H(c+d)) + H(H(e+e)+H(e+e))): the odd levels repeat their last
/// entry, so the fifth id is taken in.
pub proof fn law_merkle_root_of_five(txs: Seq<SignedTransaction>)
    requires
        txs.len() == 5,
    ensures
        ({
            let (a, b, c, d, e) = (txs[0].id@, txs[1].id@, txs[2].id@, txs[3].id@, txs[4].id@);
            let h = |x: Seq<char>| spec_sha256_hex(x);
            spec_merkle_root(txs) == h(h(h(a + b) + h(c + d)) + h(h(e + e) + h(e + e)))
        }),
{
    let ids = tx_ids_of(txs);
    let l1 = merkle_level(ids);
    law_merkle_level_covers(ids);
    assert(ids[0] == txs[0].id@ && ids[1] == txs[1].id@ && ids[2] == txs[2].id@);
    assert(ids[3] == txs[3].id@ && ids[4] == txs[4].id@);
    assert(l1.len() == 3);
    assert(l1[0] == spec_sha256_hex(ids[0] + ids[1]));
    assert(l1[1] == spec_sha256_hex(ids[2] + ids[3]));
    assert(l1[2] == spec_sha256_hex(ids[4] + ids[4]));
    let l2 = merkle_level(l1);
    law_merkle_level_covers(l1);
    assert(l2.len() == 2);
    assert(l2[0] == spec_sha256_hex(l1[0] + l1[1]));
    assert(l2[1] == spec_sha256_hex(l1[2] + l1[2]));
    let l3 = merkle_level(l2);
    law_merkle_level_covers(l2);
    assert(l3.len() == 1);
    assert(l3[0] == spec_sha256_hex(l2[0] + l2[1]));
    law_merkle_reduce_steps(ids);
    law_merkle_reduce_steps(l1);
    law_merkle_reduce_steps(l2);
    law_merkle_reduce_steps(l3);
}

/// How far two lists agree: on every position before the common prefix's
/// length, which fits in both lists, and not at that position when both
/// lists go on.
proof fn lemma_common_prefix(a: Seq<Seq<char>>, b: Seq<Seq<char>>)
    ensures
        spec_common_prefix(a, b) <= a.len(),
        spec_common_prefix(a, b) <= b.len(),
        forall|i: int| 0 <= i < spec_common_prefix(a, b) ==> #[trigger] a[i] == b[i],
        spec_common_prefix(a, b) < a.len() && spec_common_prefix(a, b) < b.len() ==> a[spec_common_prefix(a, b) as int]
            != b[spec_common_prefix(a, b) as int],
    decreases a.len(),
{
    if !(a.len() == 0 || b.len() == 0 || a[0] != b[0]) {
        lemma_common_prefix(a.drop_first(), b.drop_first());
        assert forall|i: int| 0 <= i < spec_common_prefix(a, b) implies #[trigger] a[i] == b[i] by {
            if i > 0 {
                assert(a[i] == a.drop_first()[i - 1]);
                assert(b[i] == b.drop_first()[i - 1]);
            }
        }
    }
}

/// Syncing with a peer whose chain is longer, or as long with another tip:
/// the hashes asked for are the peer's hashes from some position `c` to its
/// end, where the two lists agree on every position before `c` and, when both
/// go on, differ at `c`; so every block of the peer's branch after the
/// shared prefix is asked for, parents first, and at least one is.
pub proof fn law_fetch_after_common_prefix(local: Seq<Seq<char>>, peer: Seq<Seq<char>>)
    requires
        peer.len() > 0,
        peer.len() >= local.len(),
        peer.len() == local.len() ==> local.last() != peer.last(),
    ensures
        ({
            let f = spec_hashes_to_fetch(local, peer);
            let c = peer.len() - f.len();
            &&& 0 <= c <= local.len()
            &&& c < peer.len()
            &&& f == peer.skip(c)
            &&& forall|i: int| 0 <= i < c ==> #[trigger] local[i] == peer[i]
            &&& c < local.len() ==> local[c] != peer[c]
        }),
{
    lemma_common_prefix(local, peer);
    let c = spec_common_prefix(local, peer) as int;
    if c == peer.len() {
        assert(c == local.len());
        assert(local.last() == local[c - 1]);
        assert(local[c - 1] == peer[c - 1]);
    }
}

/// Syncing asks for nothing when the peer's chain is empty, shorter than
/// ours, or as long with the same tip.
pub proof fn law_fetch_nothing(local: Seq<Seq<char>>, peer: Seq<Seq<char>>)
    requires
        peer.len() == 0 || peer.len() < local.len() || (peer.len() == local.len() && local.last() == peer.last()),
    ensures
        spec_hashes_to_fetch(local, peer).len() == 0,
{
}

/// The ledger hash takes in the whole history: the empty ledger has the fixed
/// genesis value, a ledger of one entry hashes the JSON array of that entry,
/// and appending an entry to a non-empty ledger hashes the text the shorter
/// ledger hashed, with its closing bracket replaced by a comma, the new
/// entry's JSON and a closing bracket.
pub proof fn law_ledger_hash_history(ledger: Seq<Transaction>, t: Transaction)
    ensures
        spec_ledger_hash(Seq::empty()) == GENESIS_LEDGER_HASH@,
        spec_ledger_hash(seq![t]) == spec_sha256_hex("["@ + t.json_spec() + "]"@),
        ledger.len() > 0 ==> exists|text: Seq<char>|
            spec_ledger_hash(ledger) == #[trigger] spec_sha256_hex(text) && spec_ledger_hash(ledger.push(t))
                == spec_sha256_hex(text.drop_last() + ","@ + t.json_spec() + "]"@),
{
    reveal_strlit("[");
    reveal_strlit("]");
    reveal_strlit(",");
    let one = seq![t];
    let items1 = one.map_values(|x: Transaction| x.json_spec());
    assert(items1 =~= Seq::<Seq<char>>::empty().push(t.json_spec()));
    lemma_join_push(Seq::<Seq<char>>::empty(), t.json_spec());
    assert(json_transaction_array(one) =~= "["@ + t.json_spec() + "]"@);
    if ledger.len() > 0 {
        let items = ledger.map_values(|x: Transaction| x.json_spec());
        let longer = ledger.push(t).map_values(|x: Transaction| x.json_spec());
        assert(longer =~= items.push(t.json_spec()));
        lemma_join_push(items, t.json_spec());
        let text = json_transaction_array(ledger);
        assert(text.drop_last() =~= seq!['['] + crate::json::json_join(items));
        assert(json_transaction_array(ledger.push(t)) =~= text.drop_last() + ","@ + t.json_spec() + "]"@);
        assert(spec_ledger_hash(ledger) == spec_sha256_hex(text));
    }
}

/// The path of a request target: all of it when it has no `?`, and the
/// text before the first `?` otherwise.
pub proof fn law_target_path(path: Seq<char>, query: Seq<char>)
    requires
        !path.contains('?'),
    ensures
        target_path(path) == path,
        target_path(path + "?"@ + query) == path,
{
    reveal_strlit("?");
    assert forall|j: int| 0 <= j implies !#[trigger] matches_at(path, "?"@, j) by {
        if matches_at(path, "?"@, j) {
            assert(path.subrange(j, j + 1)[0] == '?');
            assert(path[j] == '?');
        }
    }
    lemma_find_at_absent(path, "?"@, 0);
    let t = path + "?"@ + query;
    let k = path.len() as int;
    assert(t.subrange(k, k + 1) =~= "?"@);
    assert forall|j: int| 0 <= j < k implies !#[trigger] matches_at(t, "?"@, j) by {
        if matches_at(t, "?"@, j) {
            assert(t.subrange(j, j + 1)[0] == '?');
            assert(t[j] == path[j]);
        }
    }
    lemma_find_at_first(t, "?"@, 0, k);
    assert(t.subrange(0, k) =~= path);
}

/// Each documented endpoint is reached by its own method and path, whatever
/// query follows the path, and by nothing else; any `OPTIONS` request is
/// answered as such, and every other request is not found.
pub proof fn law_route_table(method: Seq<char>, target: Seq<char>)
    ensures
        ({
            let p = target_path(target);
            let get = method == "GET"@;
            let post = method == "POST"@;
            &&& (spec_route(method, target) == Route::Ping) == (get && p == "/ping"@)
            &&& (spec_route(method, target) == Route::Status) == (get && p == "/status"@)
            &&& (spec_route(method, target) == Route::GetPeers) == (get && p == "/peers"@)
            &&& (spec_route(method, target) == Route::PostPeers) == (post && p == "/peers"@)
            &&& (spec_route(method, target) == Route::Wallet) == (get && p == "/wallet"@)
            &&& (spec_route(method, target) == Route::CreateTransaction) == (post && p == "/transactions/create"@)
            &&& (spec_route(method, target) == Route::PostTransaction) == (post && p == "/transactions"@)
            &&& (spec_route(method, target) == Route::GetTransactions) == (get && p == "/transactions"@)
            &&& (spec_route(method, target) == Route::Mine) == (post && p == "/mine"@)
            &&& (spec_route(method, target) == Route::MiningStatus) == (get && p == "/mining/status"@)
            &&& (spec_route(method, target) == Route::PostBlock) == (post && p == "/blocks"@)
            &&& (spec_route(method, target) == Route::GetBlock) == (get && "/blocks/"@.is_prefix_of(p))
            &&& (spec_route(method, target) == Route::Hashes) == (get && p == "/hashes"@)
            &&& (spec_route(method, target) == Route::Chain) == (get && p == "/chain"@)
            &&& (spec_route(method, target) == Route::ChainStatus) == (get && p == "/chain/status"@)
            &&& (spec_route(method, target) == Route::Balances) == (get && p == "/balances"@)
            &&& (spec_route(method, target) == Route::Events) == (get && p == "/events"@)
            &&& (spec_route(method, target) == Route::DebugFaults) == (post && p == "/debug/faults"@)
            &&& (spec_route(method, target) == Route::Options) == (method == "OPTIONS"@)
        }),
{
    reveal_strlit("GET");
    reveal_strlit("POST");
    reveal_strlit("OPTIONS");
    reveal_strlit("/ping");
    reveal_strlit("/status");
    reveal_strlit("/peers");
    reveal_strlit("/wallet");
    reveal_strlit("/transactions/create");
    reveal_strlit("/transactions");
    reveal_strlit("/mine");
    reveal_strlit("/mining/status");
    reveal_strlit("/blocks");
    reveal_strlit("/blocks/");
    reveal_strlit("/hashes");
    reveal_strlit("/chain");
    reveal_strlit("/chain/status");
    reveal_strlit("/balances");
    reveal_strlit("/events");
    reveal_strlit("/debug/faults");
    assert("/ping"@ != "/status"@) by { assert("/ping"@.len() != "/status"@.len()); }
    assert("/ping"@ != "/peers"@) by { assert("/ping"@.len() != "/peers"@.len()); }
    assert("/ping"@ != "/wallet"@) by { assert("/ping"@.len() != "/wallet"@.len()); }
    assert("/ping"@ != "/transactions/create"@) by { assert("/ping"@.len() != "/transactions/create"@.len()); }
    assert("/ping"@ != "/transactions"@) by { assert("/ping"@.len() != "/transactions"@.len()); }
    assert("/ping"@ != "/mine"@) by { assert("/ping"@[1] != "/mine"@[1]); }
    assert("/ping"@ != "/mining/status"@) by { assert("/ping"@.len() != "/mining/status"@.len()); }
    assert("/ping"@ != "/blocks"@) by { assert("/ping"@.len() != "/blocks"@.len()); }
    assert("/ping"@ != "/hashes"@) by { assert("/ping"@.len() != "/hashes"@.len()); }
    assert("/ping"@ != "/chain"@) by { assert("/ping"@.len() != "/chain"@.len()); }
    assert("/ping"@ != "/chain/status"@) by { assert("/ping"@.len() != "/chain/status"@.len()); }
    assert("/ping"@ != "/balances"@) by { assert("/ping"@.len() != "/balances"@.len()); }
    assert("/ping"@ != "/events"@) by { assert("/ping"@.len() != "/events"@.len()); }
    assert("/ping"@ != "/debug/faults"@) by { assert("/ping"@.len() != "/debug/faults"@.len()); }
    assert("/status"@ != "/peers"@) by { assert("/status"@.len() != "/peers"@.len()); }
    assert("/status"@ != "/wallet"@) by { assert("/status"@[1] != "/wallet"@[1]); }
    assert("/status"@ != "/transactions/create"@) by { assert("/status"@.len() != "/transactions/create"@.len()); }
    assert("/status"@ != "/transactions"@) by { assert("/status"@.len() != "/transactions"@.len()); }
    assert("/status"@ != "/mine"@) by { assert("/status"@.len() != "/mine"@.len()); }
    assert("/status"@ != "/mining/status"@) by { assert("/status"@.len() != "/mining/status"@.len()); }
    assert("/status"@ != "/blocks"@) by { assert("/status"@[1] != "/blocks"@[1]); }
    assert("/status"@ != "/hashes"@) by { assert("/status"@[1] != "/hashes"@[1]); }
    assert("/status"@ != "/chain"@) by { assert("/status"@.len() != "/chain"@.len()); }
    assert("/status"@ != "/chain/status"@) by { assert("/status"@.len() != "/chain/status"@.len()); }
    assert("/status"@ != "/balances"@) by { assert("/status"@.len() != "/balances"@.len()); }
    assert("/status"@ != "/events"@) by { assert("/status"@[1] != "/events"@[1]); }
    assert("/status"@ != "/debug/faults"@) by { assert("/status"@.len() != "/debug/faults"@.len()); }
    assert("/peers"@ != "/wallet"@) by { assert("/peers"@.len() != "/wallet"@.len()); }
    assert("/peers"@ != "/transactions/create"@) by { assert("/peers"@.len() != "/transactions/create"@.len()); }
    assert("/peers"@ != "/transactions"@) by { assert("/peers"@.len() != "/transactions"@.len()); }
    assert("/peers"@ != "/mine"@) by { assert("/peers"@.len() != "/mine"@.len()); }
    assert("/peers"@ != "/mining/status"@) by { assert("/peers"@.len() != "/mining/status"@.len()); }
    assert("/peers"@ != "/blocks"@) by { assert("/peers"@.len() != "/blocks"@.len()); }
    assert("/peers"@ != "/hashes"@) by { assert("/peers"@.len() != "/hashes"@.len()); }
    assert("/peers"@ != "/chain"@) by { assert("/peers"@[1] != "/chain"@[1]); }
    assert("/peers"@ != "/chain/status"@) by { assert("/peers"@.len() != "/chain/status"@.len()); }
    assert("/peers"@ != "/balances"@) by { assert("/peers"@.len() != "/balances"@.len()); }
    assert("/peers"@ != "/events"@) by { assert("/peers"@.len() != "/events"@.len()); }
    assert("/peers"@ != "/debug/faults"@) by { assert("/peers"@.len() != "/debug/faults"@.len()); }
    assert("/wallet"@ != "/transactions/create"@) by { assert("/wallet"@.len() != "/transactions/create"@.len()); }
    assert("/wallet"@ != "/transactions"@) by { assert("/wallet"@.len() != "/transactions"@.len()); }
    assert("/wallet"@ != "/mine"@) by { assert("/wallet"@.len() != "/mine"@.len()); }
    assert("/wallet"@ != "/mining/status"@) by { assert("/wallet"@.len() != "/mining/status"@.len()); }
    assert("/wallet"@ != "/blocks"@) by { assert("/wallet"@[1] != "/blocks"@[1]); }
    assert("/wallet"@ != "/hashes"@) by { assert("/wallet"@[1] != "/hashes"@[1]); }
    assert("/wallet"@ != "/chain"@) by { assert("/wallet"@.len() != "/chain"@.len()); }
    assert("/wallet"@ != "/chain/status"@) by { assert("/wallet"@.len() != "/chain/status"@.len()); }
    assert("/wallet"@ != "/balances"@) by { assert("/wallet"@.len() != "/balances"@.len()); }
    assert("/wallet"@ != "/events"@) by { assert("/wallet"@[1] != "/events"@[1]); }
    assert("/wallet"@ != "/debug/faults"@) by { assert("/wallet"@.len() != "/debug/faults"@.len()); }
    assert("/transactions/create"@ != "/transactions"@) by { assert("/transactions/create"@.len() != "/transactions"@.len()); }
    assert("/transactions/create"@ != "/mine"@) by { assert("/transactions/create"@.len() != "/mine"@.len()); }
    assert("/transactions/create"@ != "/mining/status"@) by { assert("/transactions/create"@.len() != "/mining/status"@.len()); }
    assert("/transactions/create"@ != "/blocks"@) by { assert("/transactions/create"@.len() != "/blocks"@.len()); }
    assert("/transactions/create"@ != "/hashes"@) by { assert("/transactions/create"@.len() != "/hashes"@.len()); }
    assert("/transactions/create"@ != "/chain"@) by { assert("/transactions/create"@.len() != "/chain"@.len()); }
    assert("/transactions/create"@ != "/chain/status"@) by { assert("/transactions/create"@.len() != "/chain/status"@.len()); }
    assert("/transactions/create"@ != "/balances"@) by { assert("/transactions/create"@.len() != "/balances"@.len()); }
    assert("/transactions/create"@ != "/events"@) by { assert("/transactions/create"@.len() != "/events"@.len()); }
    assert("/transactions/create"@ != "/debug/faults"@) by { assert("/transactions/create"@.len() != "/debug/faults"@.len()); }
    assert("/transactions"@ != "/mine"@) by { assert("/transactions"@.len() != "/mine"@.len()); }
    assert("/transactions"@ != "/mining/status"@) by { assert("/transactions"@.len() != "/mining/status"@.len()); }
    assert("/transactions"@ != "/blocks"@) by { assert("/transactions"@.len() != "/blocks"@.len()); }
    assert("/transactions"@ != "/hashes"@) by { assert("/transactions"@.len() != "/hashes"@.len()); }
    assert("/transactions"@ != "/chain"@) by { assert("/transactions"@.len() != "/chain"@.len()); }
    assert("/transactions"@ != "/chain/status"@) by { assert("/transactions"@[1] != "/chain/status"@[1]); }
    assert("/transactions"@ != "/balances"@) by { assert("/transactions"@.len() != "/balances"@.len()); }
    assert("/transactions"@ != "/events"@) by { assert("/transactions"@.len() != "/events"@.len()); }
    assert("/transactions"@ != "/debug/faults"@) by { assert("/transactions"@[1] != "/debug/faults"@[1]); }
    assert("/mine"@ != "/mining/status"@) by { assert("/mine"@.len() != "/mining/status"@.len()); }
    assert("/mine"@ != "/blocks"@) by { assert("/mine"@.len() != "/blocks"@.len()); }
    assert("/mine"@ != "/hashes"@) by { assert("/mine"@.len() != "/hashes"@.len()); }
    assert("/mine"@ != "/chain"@) by { assert("/mine"@.len() != "/chain"@.len()); }
    assert("/mine"@ != "/chain/status"@) by { assert("/mine"@.len() != "/chain/status"@.len()); }
    assert("/mine"@ != "/balances"@) by { assert("/mine"@.len() != "/balances"@.len()); }
    assert("/mine"@ != "/events"@) by { assert("/mine"@.len() != "/events"@.len()); }
    assert("/mine"@ != "/debug/faults"@) by { assert("/mine"@.len() != "/debug/faults"@.len()); }
    assert("/mining/status"@ != "/blocks"@) by { assert("/mining/status"@.len() != "/blocks"@.len()); }
    assert("/mining/status"@ != "/hashes"@) by { assert("/mining/status"@.len() != "/hashes"@.len()); }
    assert("/mining/status"@ != "/chain"@) by { assert("/mining/status"@.len() != "/chain"@.len()); }
    assert("/mining/status"@ != "/chain/status"@) by { assert("/mining/status"@.len() != "/chain/status"@.len()); }
    assert("/mining/status"@ != "/balances"@) by { assert("/mining/status"@.len() != "/balances"@.len()); }
    assert("/mining/status"@ != "/events"@) by { assert("/mining/status"@.len() != "/events"@.len()); }
    assert("/mining/status"@ != "/debug/faults"@) by { assert("/mining/status"@.len() != "/debug/faults"@.len()); }
    assert("/blocks"@ != "/hashes"@) by { assert("/blocks"@[1] != "/hashes"@[1]); }
    assert("/blocks"@ != "/chain"@) by { assert("/blocks"@.len() != "/chain"@.len()); }
    assert("/blocks"@ != "/chain/status"@) by { assert("/blocks"@.len() != "/chain/status"@.len()); }
    assert("/blocks"@ != "/balances"@) by { assert("/blocks"@.len() != "/balances"@.len()); }
    assert("/blocks"@ != "/events"@) by { assert("/blocks"@[1] != "/events"@[1]); }
    assert("/blocks"@ != "/debug/faults"@) by { assert("/blocks"@.len() != "/debug/faults"@.len()); }
    assert("/hashes"@ != "/chain"@) by { assert("/hashes"@.len() != "/chain"@.len()); }
    assert("/hashes"@ != "/chain/status"@) by { assert("/hashes"@.len() != "/chain/status"@.len()); }
    assert("/hashes"@ != "/balances"@) by { assert("/hashes"@.len() != "/balances"@.len()); }
    assert("/hashes"@ != "/events"@) by { assert("/hashes"@[1] != "/events"@[1]); }
    assert("/hashes"@ != "/debug/faults"@) by { assert("/hashes"@.len() != "/debug/faults"@.len()); }
    assert("/chain"@ != "/chain/status"@) by { assert("/chain"@.len() != "/chain/status"@.len()); }
    assert("/chain"@ != "/balances"@) by { assert("/chain"@.len() != "/balances"@.len()); }
    assert("/chain"@ != "/events"@) by { assert("/chain"@.len() != "/events"@.len()); }
    assert("/chain"@ != "/debug/faults"@) by { assert("/chain"@.len() != "/debug/faults"@.len()); }
    assert("/chain/status"@ != "/balances"@) by { assert("/chain/status"@.len() != "/balances"@.len()); }
    assert("/chain/status"@ != "/events"@) by { assert("/chain/status"@.len() != "/events"@.len()); }
    assert("/chain/status"@ != "/debug/faults"@) by { assert("/chain/status"@[1] != "/debug/faults"@[1]); }
    assert("/balances"@ != "/events"@) by { assert("/balances"@.len() != "/events"@.len()); }
    assert("/balances"@ != "/debug/faults"@) by { assert("/balances"@.len() != "/debug/faults"@.len()); }
    assert("/events"@ != "/debug/faults"@) by { assert("/events"@.len() != "/debug/faults"@.len()); }
    assert("GET"@ != "POST"@) by { assert("GET"@.len() != "POST"@.len()); }
    assert("GET"@ != "OPTIONS"@) by { assert("GET"@.len() != "OPTIONS"@.len()); }
    assert("POST"@ != "OPTIONS"@) by { assert("POST"@.len() != "OPTIONS"@.len()); }
    assert(!"/blocks/"@.is_prefix_of("/ping"@));
    assert(!"/blocks/"@.is_prefix_of("/status"@));
    assert(!"/blocks/"@.is_prefix_of("/peers"@));
    assert(!"/blocks/"@.is_prefix_of("/wallet"@));
    assert(!"/blocks/"@.is_prefix_of("/transactions/create"@)) by { assert("/blocks/"@[1] != "/transactions/create"@[1]); }
    assert(!"/blocks/"@.is_prefix_of("/transactions"@)) by { assert("/blocks/"@[1] != "/transactions"@[1]); }
    assert(!"/blocks/"@.is_prefix_of("/mine"@));
    assert(!"/blocks/"@.is_prefix_of("/mining/status"@)) by { assert("/blocks/"@[1] != "/mining/status"@[1]); }
    assert(!"/blocks/"@.is_prefix_of("/blocks"@));
    assert(!"/blocks/"@.is_prefix_of("/hashes"@));
    assert(!"/blocks/"@.is_prefix_of("/chain"@));
    assert(!"/blocks/"@.is_prefix_of("/chain/status"@)) by { assert("/blocks/"@[1] != "/chain/status"@[1]); }
    assert(!"/blocks/"@.is_prefix_of("/balances"@)) by { assert("/blocks/"@[2] != "/balances"@[2]); }
    assert(!"/blocks/"@.is_prefix_of("/events"@));
    assert(!"/blocks/"@.is_prefix_of("/debug/faults"@)) by { assert("/blocks/"@[1] != "/debug/faults"@[1]); }
}

} // verus!
