# peer_ledger

A peer-to-peer mined ledger: proof-of-work blocks, signed transfers, fork
storage with deterministic longest-chain selection, and a round-based ordering
of ledger entries with rotating leaders and majority quorums.

The library in `src/` is written in Verus; every function there is verified
against its `requires`/`ensures` contract, except the small trusted wrappers
around `sha2`, `hex`, `ed25519-dalek`, `indexmap`, `serde_json` and std, whose
contracts state what those crates document. `src/laws.rs` states and proves
the properties that span functions: the fork-choice order is a strict total
order, the selected tip is the best stored block, the canonical chain is
linked from height 0 to the tip and holds one reward per block, every
balance is what the canonical transactions credit less what the account sent,
a mined candidate extends the tip it was built on, quorums intersect, leaders
rotate, a leader accepts its own commit, a delivered commit is accepted again,
sorting decides entry order, and requests and replies read back as they were
sent. The contract of `chain::add_block` states that every orphan waiting for
a stored block is itself stored or reported as rejected, that every block it
connects after the first is one that waited for a block connected before it,
and that when the tip moves the transfers of the new canonical branch leave
the mempool;
`mining::mining_step` holds the decisions of the mining loop.

`app/` is the node program around the library: command line, files, sockets,
threads, and the JSON forms of the records.

Module map:

- `block`, `chain`, `replay`: blocks, the block store with forks and orphans,
  balance replay, fork choice, canonical chain, mempool.
- `transaction`, `crypto`, `json`: transfers, ids, signatures, hashing and the
  canonical JSON they are computed over.
- `consensus`, `ledger`, `sorting`: round membership, leaders, quorums,
  proposals, commits, the committed ledger.
- `mining`, `events`, `peers`, `sync`, `http`, `body`, `config`, `wallet`,
  `scan`, `text`, `store`, `indexed`, `models`: mining, log messages, peer
  lists, chain sync, the HTTP dialect and JSON request bodies, the command
  line, wallets, text scanning, and the collections and records underneath.
