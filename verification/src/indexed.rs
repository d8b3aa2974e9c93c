//! The insertion-ordered maps of the block store (`indexmap::IndexMap` keyed by
//! hash strings). Each map's contents are named as an entry list; the trusted
//! wrappers below state what each `IndexMap` method does to that list.
//!
//! Facts taken from `indexmap`'s documentation and source: keys are unique;
//! `insert` on a present key replaces the value in place, otherwise appends;
//! `shift_remove` removes the entry and shifts the later ones down;
//! `get`/`contains_key` find the entry whose key is equal; `get_index` returns
//! the entry at a position. String keys are equal when their texts are equal.
use vstd::prelude::*;

use indexmap::IndexMap;

use crate::models::{Block, SignedTransaction, StoredBlock, Transaction};
use crate::store::{has_key, index_of, keys_distinct, remove_entry, store_entry, Balances, StringSet};

verus! {

#[verifier::external_type_specification]
#[verifier::external_body]
#[verifier::reject_recursive_types(K)]
#[verifier::reject_recursive_types(V)]
#[verifier::reject_recursive_types(S)]
pub struct ExIndexMap<K, V, S>(IndexMap<K, V, S>);

/// The entries of the block store, in insertion order.
pub uninterp spec fn block_entries(m: IndexMap<String, StoredBlock>) -> Seq<(Seq<char>, StoredBlock)>;

/// The entries of a mempool, in insertion order.
pub uninterp spec fn pool_entries(m: IndexMap<String, SignedTransaction>) -> Seq<(Seq<char>, SignedTransaction)>;

/// The orphan lists by missing parent hash, in insertion order.
pub uninterp spec fn orphan_entries(m: IndexMap<String, Vec<Block>>) -> Seq<(Seq<char>, Vec<Block>)>;

/// The cached balances by block hash, in insertion order.
pub uninterp spec fn balance_cache_entries(m: IndexMap<String, Balances>) -> Seq<(Seq<char>, Balances)>;

/// The cached transaction-id sets by block hash, in insertion order.
pub uninterp spec fn id_cache_entries(m: IndexMap<String, StringSet>) -> Seq<(Seq<char>, StringSet)>;

/// The entries of a round-ordered transaction pool, in insertion order.
pub uninterp spec fn ledger_pool_entries(m: IndexMap<String, Transaction>) -> Seq<(Seq<char>, Transaction)>;

/// Orphan lists by their views.
pub open spec fn orphan_lists(e: Seq<(Seq<char>, Vec<Block>)>) -> Seq<(Seq<char>, Seq<Block>)> {
    e.map_values(|p: (Seq<char>, Vec<Block>)| (p.0, p.1@))
}

// ---- block store ----

/// `IndexMap::new` for the block store.
#[verifier::external_body]
pub(crate) fn block_map_new() -> (res: IndexMap<String, StoredBlock>)
    ensures
        block_entries(res) == Seq::<(Seq<char>, StoredBlock)>::empty(),
{
    IndexMap::new()
}

/// `IndexMap::len` for the block store.
#[verifier::external_body]
pub(crate) fn block_map_len(m: &IndexMap<String, StoredBlock>) -> (res: usize)
    ensures
        res == block_entries(*m).len(),
{
    m.len()
}

/// `IndexMap::contains_key` for the block store.
#[verifier::external_body]
pub(crate) fn block_map_contains(m: &IndexMap<String, StoredBlock>, key: &str) -> (res: bool)
    ensures
        res == has_key(block_entries(*m), key@),
{
    m.contains_key(key)
}

/// `IndexMap::get` for the block store.
#[verifier::external_body]
pub(crate) fn block_map_get<'a>(m: &'a IndexMap<String, StoredBlock>, key: &str) -> (res: Option<&'a StoredBlock>)
    ensures
        res is Some <==> has_key(block_entries(*m), key@),
        res matches Some(v) ==> *v == block_entries(*m)[index_of(block_entries(*m), key@)].1,
{
    m.get(key)
}

/// `IndexMap::insert` for the block store.
#[verifier::external_body]
pub(crate) fn block_map_insert(m: &mut IndexMap<String, StoredBlock>, key: String, value: StoredBlock)
    ensures
        block_entries(*final(m)) == store_entry(block_entries(*old(m)), key@, value),
        keys_distinct(block_entries(*final(m))),
{
    m.insert(key, value);
}

// ---- mempool ----

/// `IndexMap::new` for a mempool.
#[verifier::external_body]
pub(crate) fn pool_new() -> (res: IndexMap<String, SignedTransaction>)
    ensures
        pool_entries(res) == Seq::<(Seq<char>, SignedTransaction)>::empty(),
{
    IndexMap::new()
}

/// `IndexMap::len` for a mempool.
#[verifier::external_body]
pub(crate) fn pool_len(m: &IndexMap<String, SignedTransaction>) -> (res: usize)
    ensures
        res == pool_entries(*m).len(),
{
    m.len()
}

/// `IndexMap::contains_key` for a mempool.
#[verifier::external_body]
pub(crate) fn pool_contains(m: &IndexMap<String, SignedTransaction>, key: &str) -> (res: bool)
    ensures
        res == has_key(pool_entries(*m), key@),
{
    m.contains_key(key)
}

/// `IndexMap::get_index` for a mempool.
#[verifier::external_body]
pub(crate) fn pool_get_index<'a>(m: &'a IndexMap<String, SignedTransaction>, index: usize) -> (res: Option<(&'a String, &'a SignedTransaction)>)
    ensures
        res is Some <==> index < pool_entries(*m).len(),
        res matches Some(kv) ==> kv.0@ == pool_entries(*m)[index as int].0 && *kv.1 == pool_entries(*m)[index as int].1,
{
    m.get_index(index)
}

/// `IndexMap::insert` for a mempool.
#[verifier::external_body]
pub(crate) fn pool_insert(m: &mut IndexMap<String, SignedTransaction>, key: String, value: SignedTransaction)
    ensures
        pool_entries(*final(m)) == store_entry(pool_entries(*old(m)), key@, value),
        keys_distinct(pool_entries(*final(m))),
{
    m.insert(key, value);
}

// ---- orphans ----

/// `IndexMap::new` for the orphan lists.
#[verifier::external_body]
pub(crate) fn orphan_map_new() -> (res: IndexMap<String, Vec<Block>>)
    ensures
        orphan_entries(res) == Seq::<(Seq<char>, Vec<Block>)>::empty(),
{
    IndexMap::new()
}

/// `IndexMap::len` for the orphan lists.
#[verifier::external_body]
pub(crate) fn orphan_map_len(m: &IndexMap<String, Vec<Block>>) -> (res: usize)
    ensures
        res == orphan_entries(*m).len(),
{
    m.len()
}

/// `IndexMap::get_index` for the orphan lists.
#[verifier::external_body]
pub(crate) fn orphan_map_get_index<'a>(m: &'a IndexMap<String, Vec<Block>>, index: usize) -> (res: Option<(&'a String, &'a Vec<Block>)>)
    ensures
        res is Some <==> index < orphan_entries(*m).len(),
        res matches Some(kv) ==> kv.0@ == orphan_entries(*m)[index as int].0 && *kv.1 == orphan_entries(*m)[index as int].1,
{
    m.get_index(index)
}

/// `entry(key).or_default().push(block)` on the orphan lists: appends the block
/// to the list under `key`, starting an empty list at the end when there is none.
#[verifier::external_body]
pub(crate) fn orphan_map_push(m: &mut IndexMap<String, Vec<Block>>, key: String, block: Block)
    ensures
        orphan_lists(orphan_entries(*final(m))) == store_entry(
            orphan_lists(orphan_entries(*old(m))),
            key@,
            if has_key(orphan_entries(*old(m)), key@) {
                orphan_entries(*old(m))[index_of(orphan_entries(*old(m)), key@)].1@.push(block)
            } else {
                seq![block]
            },
        ),
        keys_distinct(orphan_entries(*final(m))),
{
    m.entry(key).or_default().push(block);
}

/// `IndexMap::shift_remove` for the orphan lists.
#[verifier::external_body]
pub(crate) fn orphan_map_shift_remove(m: &mut IndexMap<String, Vec<Block>>, key: &str) -> (res: Option<Vec<Block>>)
    ensures
        orphan_entries(*final(m)) == remove_entry(orphan_entries(*old(m)), key@),
        res is Some <==> has_key(orphan_entries(*old(m)), key@),
        res matches Some(v) ==> v == orphan_entries(*old(m))[index_of(orphan_entries(*old(m)), key@)].1,
        keys_distinct(orphan_entries(*final(m))),
{
    m.shift_remove(key)
}

// ---- branch caches ----

/// `IndexMap::new` for the balance cache.
#[verifier::external_body]
pub(crate) fn balance_cache_new() -> (res: IndexMap<String, Balances>)
    ensures
        balance_cache_entries(res) == Seq::<(Seq<char>, Balances)>::empty(),
{
    IndexMap::new()
}

/// `IndexMap::get` for the balance cache.
#[verifier::external_body]
pub(crate) fn balance_cache_get<'a>(m: &'a IndexMap<String, Balances>, key: &str) -> (res: Option<&'a Balances>)
    ensures
        res is Some <==> has_key(balance_cache_entries(*m), key@),
        res matches Some(v) ==> *v == balance_cache_entries(*m)[index_of(balance_cache_entries(*m), key@)].1,
{
    m.get(key)
}

/// `IndexMap::insert` for the balance cache.
#[verifier::external_body]
pub(crate) fn balance_cache_insert(m: &mut IndexMap<String, Balances>, key: String, value: Balances)
    ensures
        balance_cache_entries(*final(m)) == store_entry(balance_cache_entries(*old(m)), key@, value),
        keys_distinct(balance_cache_entries(*final(m))),
{
    m.insert(key, value);
}

/// `IndexMap::new` for the transaction-id cache.
#[verifier::external_body]
pub(crate) fn id_cache_new() -> (res: IndexMap<String, StringSet>)
    ensures
        id_cache_entries(res) == Seq::<(Seq<char>, StringSet)>::empty(),
{
    IndexMap::new()
}

/// `IndexMap::get` for the transaction-id cache.
#[verifier::external_body]
pub(crate) fn id_cache_get<'a>(m: &'a IndexMap<String, StringSet>, key: &str) -> (res: Option<&'a StringSet>)
    ensures
        res is Some <==> has_key(id_cache_entries(*m), key@),
        res matches Some(v) ==> *v == id_cache_entries(*m)[index_of(id_cache_entries(*m), key@)].1,
{
    m.get(key)
}

/// `IndexMap::insert` for the transaction-id cache.
#[verifier::external_body]
pub(crate) fn id_cache_insert(m: &mut IndexMap<String, StringSet>, key: String, value: StringSet)
    ensures
        id_cache_entries(*final(m)) == store_entry(id_cache_entries(*old(m)), key@, value),
        keys_distinct(id_cache_entries(*final(m))),
{
    m.insert(key, value);
}

// ---- round-ordered transaction pool ----

/// `IndexMap::new` for a transaction pool.
#[verifier::external_body]
pub(crate) fn ledger_pool_new() -> (res: IndexMap<String, Transaction>)
    ensures
        ledger_pool_entries(res) == Seq::<(Seq<char>, Transaction)>::empty(),
{
    IndexMap::new()
}

/// `IndexMap::len` for a transaction pool.
#[verifier::external_body]
pub(crate) fn ledger_pool_len(m: &IndexMap<String, Transaction>) -> (res: usize)
    ensures
        res == ledger_pool_entries(*m).len(),
{
    m.len()
}

/// `IndexMap::contains_key` for a transaction pool.
#[verifier::external_body]
pub(crate) fn ledger_pool_contains(m: &IndexMap<String, Transaction>, key: &str) -> (res: bool)
    ensures
        res == has_key(ledger_pool_entries(*m), key@),
{
    m.contains_key(key)
}

/// `IndexMap::get_index` for a transaction pool.
#[verifier::external_body]
pub(crate) fn ledger_pool_get_index<'a>(m: &'a IndexMap<String, Transaction>, index: usize) -> (res: Option<(&'a String, &'a Transaction)>)
    ensures
        res is Some <==> index < ledger_pool_entries(*m).len(),
        res matches Some(kv) ==> kv.0@ == ledger_pool_entries(*m)[index as int].0 && *kv.1 == ledger_pool_entries(*m)[index as int].1,
{
    m.get_index(index)
}

/// `IndexMap::insert` for a transaction pool.
#[verifier::external_body]
pub(crate) fn ledger_pool_insert(m: &mut IndexMap<String, Transaction>, key: String, value: Transaction)
    ensures
        ledger_pool_entries(*final(m)) == store_entry(ledger_pool_entries(*old(m)), key@, value),
        keys_distinct(ledger_pool_entries(*final(m))),
{
    m.insert(key, value);
}

/// `IndexMap::shift_remove` for a transaction pool.
#[verifier::external_body]
pub(crate) fn ledger_pool_shift_remove(m: &mut IndexMap<String, Transaction>, key: &str) -> (res: Option<Transaction>)
    ensures
        ledger_pool_entries(*final(m)) == remove_entry(ledger_pool_entries(*old(m)), key@),
        res is Some <==> has_key(ledger_pool_entries(*old(m)), key@),
        res matches Some(v) ==> v == ledger_pool_entries(*old(m))[index_of(ledger_pool_entries(*old(m)), key@)].1,
        keys_distinct(ledger_pool_entries(*final(m))),
{
    m.shift_remove(key)
}

} // verus!
