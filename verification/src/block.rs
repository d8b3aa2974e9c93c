//! Blocks: Merkle roots, header hashes, proof of work and the structural
//! checks every received block must pass.
use vstd::prelude::*;

use crate::crypto::{hash_json, sha256_hex, spec_sha256_hex};
use crate::json::CanonicalJson;
use crate::models::{Block, BlockHeader, SignedTransaction};
use crate::text::{concat, is_err_with, owned, str_starts_with, string_push};

verus! {

/// The ids of a list of transactions.
pub open spec fn tx_ids_of(txs: Seq<SignedTransaction>) -> Seq<Seq<char>> {
    txs.map_values(|tx: SignedTransaction| tx.id@)
}

/// The views of a list of strings.
pub open spec fn string_views(v: Seq<String>) -> Seq<Seq<char>> {
    v.map_values(|s: String| s@)
}

/// One level of the Merkle tree: an odd level repeats its last entry, then each
/// pair is hashed as the concatenation of the two hex digests.
pub open spec fn merkle_level(level: Seq<Seq<char>>) -> Seq<Seq<char>> {
    let padded = if level.len() % 2 == 1 { level.push(level.last()) } else { level };
    Seq::new(padded.len() / 2, |i: int| spec_sha256_hex(padded[2 * i] + padded[2 * i + 1]))
}

/// Reduces a non-empty level to its single root.
pub open spec fn merkle_reduce(level: Seq<Seq<char>>) -> Seq<char>
    decreases level.len(),
{
    if level.len() <= 1 {
        level[0]
    } else {
        merkle_reduce(merkle_level(level))
    }
}

/// The Merkle root of a transaction list; the empty list has the digest of "".
pub open spec fn spec_merkle_root(txs: Seq<SignedTransaction>) -> Seq<char> {
    if txs.len() == 0 {
        spec_sha256_hex(Seq::empty())
    } else {
        merkle_reduce(tx_ids_of(txs))
    }
}

/// The hash of a block header: SHA-256 hex of its canonical JSON.
pub open spec fn spec_block_hash(header: BlockHeader) -> Seq<char> {
    spec_sha256_hex(header.json_spec())
}

/// A hash that meets the proof-of-work target: it starts with `difficulty` zeros.
pub open spec fn spec_valid_pow(hash: Seq<char>, difficulty: nat) -> bool {
    &&& hash.len() >= difficulty
    &&& forall|i: int| 0 <= i < difficulty ==> hash[i] == '0'
}

/// The first structural rule a block breaks at this node's difficulty.
pub open spec fn basic_block_error(block: Block, difficulty: u32) -> Option<Seq<char>> {
    if block.hash@ != spec_block_hash(block.header) {
        Some("block hash does not match header"@)
    } else if block.header.difficulty != difficulty {
        Some("block difficulty does not match this node"@)
    } else if !spec_valid_pow(block.hash@, difficulty as nat) {
        Some("invalid proof of work"@)
    } else if block.header.tx_count != block.transactions@.len() {
        Some("block transaction count does not match header"@)
    } else if block.header.merkle_root@ != spec_merkle_root(block.transactions@) {
        Some("block Merkle root does not match transactions"@)
    } else if block.header.height > 0 && block.header.timestamp == 0 {
        Some("non-genesis block timestamp must be nonzero"@)
    } else {
        None
    }
}

/// The string of the empty text's digest.
fn hash_of_empty() -> (res: String)
    ensures
        res@ == spec_sha256_hex(Seq::empty()),
{
    let empty = String::new();
    sha256_hex(empty.as_str())
}

/// The Merkle root of a list of transactions' ids.
pub fn merkle_root(txs: &[SignedTransaction]) -> (res: Result<String, String>)
    ensures
        res matches Ok(root) && root@ == spec_merkle_root(txs@),
{
    if txs.len() == 0 {
        return Ok(hash_of_empty());
    }
    let mut level: Vec<String> = Vec::new();
    for i in 0..txs.len()
        invariant
            level@.len() == i,
            forall|j: int| 0 <= j < i ==> #[trigger] level@[j]@ == txs@[j].id@,
    {
        level.push(txs[i].id.clone());
    }
    assert(string_views(level@) =~= tx_ids_of(txs@));
    while level.len() > 1
        invariant
            level@.len() >= 1,
            merkle_reduce(string_views(level@)) == merkle_reduce(tx_ids_of(txs@)),
        decreases level@.len(),
    {
        let ghost before = string_views(level@);
        if level.len() % 2 == 1 {
            let last = level[level.len() - 1].clone();
            level.push(last);
        }
        let ghost padded = string_views(level@);
        assert(padded =~= if before.len() % 2 == 1 { before.push(before.last()) } else { before });
        let mut next: Vec<String> = Vec::new();
        let mut i: usize = 0;
        while i < level.len()
            invariant
                string_views(level@) == padded,
                level@.len() % 2 == 0,
                i % 2 == 0,
                i <= level@.len(),
                next@.len() == i / 2,
                forall|j: int| 0 <= j < i / 2 ==> #[trigger] next@[j]@ == spec_sha256_hex(
                    padded[2 * j] + padded[2 * j + 1],
                ),
            decreases level@.len() - i,
        {
            let pair = concat(&level[i], &level[i + 1]);
            next.push(sha256_hex(&pair));
            i = i + 2;
        }
        assert(string_views(next@) =~= merkle_level(before));
        level = next;
    }
    Ok(level[0].clone())
}

/// The hash of a block header.
pub fn block_hash(header: &BlockHeader) -> (res: Result<String, String>)
    ensures
        res matches Ok(hash) && hash@ == spec_block_hash(*header),
{
    hash_json(header)
}

/// The proof-of-work target: `difficulty` zeros.
pub fn proof_target(difficulty: u32) -> (res: String)
    ensures
        res@ == Seq::new(difficulty as nat, |i: int| '0'),
{
    let mut res = String::new();
    let mut i: u32 = 0;
    while i < difficulty
        invariant
            i <= difficulty,
            res@ == Seq::new(i as nat, |k: int| '0'),
        decreases difficulty - i,
    {
        string_push(&mut res, '0');
        i = i + 1;
        assert(res@ =~= Seq::new(i as nat, |k: int| '0'));
    }
    res
}

/// Whether a block hash meets the target of `difficulty` leading zeros.
pub fn has_valid_pow(hash: &str, difficulty: u32) -> (res: bool)
    ensures
        res == spec_valid_pow(hash@, difficulty as nat),
{
    let target = proof_target(difficulty);
    let res = str_starts_with(hash, &target);
    assert(res == spec_valid_pow(hash@, difficulty as nat)) by {
        if spec_valid_pow(hash@, difficulty as nat) {
            assert(target@ =~= hash@.subrange(0, difficulty as int));
        }
        if res {
            assert forall|i: int| 0 <= i < difficulty implies hash@[i] == '0' by {
                assert(target@[i] == hash@.subrange(0, difficulty as int)[i]);
            }
        }
    }
    res
}

/// The structural checks of a received block: header hash, difficulty, proof of
/// work, transaction count, Merkle root and a nonzero timestamp off genesis.
pub fn validate_basic_block(block: &Block, difficulty: u32) -> (res: Result<(), String>)
    ensures
        res is Ok <==> basic_block_error(*block, difficulty) is None,
        basic_block_error(*block, difficulty) matches Some(msg) ==> is_err_with(res, msg),
{
    let expected_hash = block_hash(&block.header)?;
    if block.hash != expected_hash {
        return Err(owned("block hash does not match header"));
    }
    if block.header.difficulty != difficulty {
        return Err(owned("block difficulty does not match this node"));
    }
    if !has_valid_pow(&block.hash, difficulty) {
        return Err(owned("invalid proof of work"));
    }
    if block.header.tx_count != block.transactions.len() {
        return Err(owned("block transaction count does not match header"));
    }
    let expected_root = merkle_root(block.transactions.as_slice())?;
    if block.header.merkle_root != expected_root {
        return Err(owned("block Merkle root does not match transactions"));
    }
    if block.header.height > 0 && block.header.timestamp == 0 {
        return Err(owned("non-genesis block timestamp must be nonzero"));
    }
    Ok(())
}

/// The genesis block of a network with this difficulty: height 0, parent `"0"`,
/// timestamp and nonce 0, creator `"genesis"` and no transactions.
pub open spec fn spec_genesis(block: Block, difficulty: u32) -> bool {
    &&& block.header.height == 0
    &&& block.header.previous_hash@ == "0"@
    &&& block.header.timestamp == 0
    &&& block.header.nonce == 0
    &&& block.header.difficulty == difficulty
    &&& block.header.creator@ == "genesis"@
    &&& block.header.merkle_root@ == spec_merkle_root(Seq::empty())
    &&& block.header.tx_count == 0
    &&& block.transactions@.len() == 0
    &&& block.hash@ == spec_block_hash(block.header)
}

/// The genesis block every node of a network starts from.
pub fn genesis_block(difficulty: u32) -> (res: Block)
    ensures
        spec_genesis(res, difficulty),
{
    let transactions: Vec<SignedTransaction> = Vec::new();
    let root = match merkle_root(transactions.as_slice()) {
        Ok(root) => root,
        Err(_) => String::new(),
    };
    let header = BlockHeader {
        height: 0,
        previous_hash: owned("0"),
        timestamp: 0,
        nonce: 0,
        difficulty,
        creator: owned("genesis"),
        merkle_root: root,
        tx_count: 0,
    };
    let hash = match block_hash(&header) {
        Ok(hash) => hash,
        Err(_) => String::new(),
    };
    assert(transactions@ =~= Seq::<SignedTransaction>::empty());
    Block { header, hash, transactions }
}

} // verus!
