//! Deterministic orders: ledger entries by (origin, sequence number, id), and
//! sorted duplicate-free lists of strings.
use vstd::prelude::*;

use crate::models::Transaction;
use crate::text::{lemma_seq_less_irreflexive, lemma_seq_less_total, lemma_seq_less_transitive, seq_less, str_equal, str_less};

verus! {

/// The order of ledger entries: by origin, then sequence number, then id.
pub open spec fn tx_key_less(a: Transaction, b: Transaction) -> bool {
    ||| seq_less(a.origin@, b.origin@)
    ||| (a.origin@ == b.origin@ && a.seq < b.seq)
    ||| (a.origin@ == b.origin@ && a.seq == b.seq && seq_less(a.id@, b.id@))
}

/// Entries in non-decreasing order.
pub open spec fn tx_sorted(v: Seq<Transaction>) -> bool {
    forall|i: int, j: int| 0 <= i < j < v.len() ==> !tx_key_less(#[trigger] v[j], #[trigger] v[i])
}

/// The entry order is transitive.
pub proof fn lemma_tx_less_transitive(a: Transaction, b: Transaction, c: Transaction)
    requires
        tx_key_less(a, b),
        tx_key_less(b, c),
    ensures
        tx_key_less(a, c),
{
    lemma_seq_less_total(a.origin@, b.origin@);
    lemma_seq_less_total(b.origin@, c.origin@);
    lemma_seq_less_total(a.origin@, c.origin@);
    if seq_less(a.origin@, b.origin@) && seq_less(b.origin@, c.origin@) {
        lemma_seq_less_transitive(a.origin@, b.origin@, c.origin@);
    }
    if a.origin@ == b.origin@ && b.origin@ == c.origin@ && a.seq == b.seq && b.seq == c.seq {
        if seq_less(a.id@, b.id@) && seq_less(b.id@, c.id@) {
            lemma_seq_less_transitive(a.id@, b.id@, c.id@);
        }
    }
}

/// Two entries are always comparable one way or the other.
pub proof fn lemma_tx_less_total(a: Transaction, b: Transaction)
    ensures
        !tx_key_less(a, b) && !tx_key_less(b, a) ==> a.origin@ == b.origin@ && a.seq == b.seq && a.id@ == b.id@,
        !(tx_key_less(a, b) && tx_key_less(b, a)),
{
    lemma_seq_less_total(a.origin@, b.origin@);
    lemma_seq_less_total(a.id@, b.id@);
    lemma_seq_less_irreflexive(a.origin@);
    lemma_seq_less_irreflexive(a.id@);
}

/// Whether entry `a` orders strictly before entry `b`.
pub fn tx_less(a: &Transaction, b: &Transaction) -> (res: bool)
    ensures
        res == tx_key_less(*a, *b),
{
    if str_less(&a.origin, &b.origin) {
        return true;
    }
    if !str_equal(&a.origin, &b.origin) {
        return false;
    }
    if a.seq != b.seq {
        return a.seq < b.seq;
    }
    str_less(&a.id, &b.id)
}

/// Sorts entries by (origin, sequence number, id), keeping the relative order
/// of entries with equal keys.
pub fn sort_transactions_by_key(txs: &mut Vec<Transaction>)
    ensures
        tx_sorted(final(txs)@),
        final(txs)@.to_multiset() == old(txs)@.to_multiset(),
        final(txs)@.len() == old(txs)@.len(),
{
    let ghost input_seq = txs@;
    let mut sorted: Vec<Transaction> = Vec::new();
    let mut source: Vec<Transaction> = Vec::new();
    std::mem::swap(&mut source, txs);
    let n = source.len();
    let mut i: usize = 0;
    assert(sorted@ =~= input_seq.take(0));
    while i < n
        invariant
            source@ == input_seq,
            n == input_seq.len(),
            i <= n,
            tx_sorted(sorted@),
            sorted@.to_multiset() == input_seq.take(i as int).to_multiset(),
            sorted@.len() == i,
        decreases n - i,
    {
        let x = source[i].clone();
        let mut pos: usize = 0;
        while pos < sorted.len() && !tx_less(&x, &sorted[pos])
            invariant
                pos <= sorted@.len(),
                forall|k: int| 0 <= k < pos ==> !tx_key_less(x, #[trigger] sorted@[k]),
            decreases sorted@.len() - pos,
        {
            pos = pos + 1;
        }
        let ghost before = sorted@;
        sorted.insert(pos, x);
        proof {
            to_multiset_insert_fact(before, pos as int, x);
            assert(input_seq.take(i + 1) == input_seq.take(i as int).push(input_seq[i as int]));
            vstd::seq_lib::to_multiset_build(input_seq.take(i as int), input_seq[i as int]);
            assert forall|a: int, b: int| 0 <= a < b < sorted@.len() implies !tx_key_less(#[trigger] sorted@[b], #[trigger] sorted@[a]) by {
                let p = pos as int;
                if a < p && b < p {
                    assert(sorted@[a] == before[a] && sorted@[b] == before[b]);
                } else if a < p && b == p {
                    lemma_tx_less_total(x, before[a]);
                } else if a < p && b > p {
                    assert(sorted@[a] == before[a] && sorted@[b] == before[b - 1]);
                } else if a == p {
                    assert(sorted@[b] == before[b - 1]);
                    assert(tx_key_less(x, before[p]));
                    if b - 1 > p {
                        assert(!tx_key_less(before[b - 1], before[p]));
                    }
                    if tx_key_less(before[b - 1], x) {
                        lemma_tx_less_transitive(before[b - 1], x, before[p]);
                        lemma_tx_less_total(before[b - 1], before[p]);
                    }
                } else {
                    assert(sorted@[a] == before[a - 1] && sorted@[b] == before[b - 1]);
                }
            }
        }
        i = i + 1;
    }
    assert(input_seq.take(n as int) == input_seq);
    *txs = sorted;
}

proof fn to_multiset_insert_fact(s: Seq<Transaction>, i: int, a: Transaction)
    requires
        0 <= i <= s.len(),
    ensures
        s.insert(i, a).to_multiset() == s.to_multiset().insert(a),
{
    vstd::seq_lib::to_multiset_insert(s, i, a);
}

/// Strings in strictly increasing order (so without duplicates).
pub open spec fn strictly_sorted(v: Seq<Seq<char>>) -> bool {
    forall|i: int, j: int| 0 <= i < j < v.len() ==> seq_less(#[trigger] v[i], #[trigger] v[j])
}

/// The views of a list of strings.
pub open spec fn views(v: Seq<String>) -> Seq<Seq<char>> {
    v.map_values(|s: String| s@)
}

/// Adds a string to a strictly increasing list, unless it is already there.
pub fn insert_sorted_unique(v: &mut Vec<String>, s: String)
    requires
        strictly_sorted(views(old(v)@)),
    ensures
        strictly_sorted(views(final(v)@)),
        views(final(v)@).to_set() == views(old(v)@).to_set().insert(s@),
{
    let ghost before = views(v@);
    let mut pos: usize = 0;
    while pos < v.len() && str_less(&v[pos], &s)
        invariant
            before == views(v@),
            pos <= v@.len(),
            forall|k: int| 0 <= k < pos ==> seq_less(#[trigger] v@[k]@, s@),
        decreases v@.len() - pos,
    {
        pos = pos + 1;
    }
    if pos < v.len() && str_equal(&v[pos], &s) {
        assert(views(v@).to_set().insert(s@) =~= views(v@).to_set()) by {
            assert(views(v@)[pos as int] == s@);
        }
        return;
    }
    proof {
        if pos < v@.len() {
            lemma_seq_less_total(v@[pos as int]@, s@);
        }
    }
    let ghost sv = s@;
    v.insert(pos, s);
    proof {
        let after = views(v@);
        let p = pos as int;
        assert(after =~= before.insert(p, sv));
        assert forall|a: int, b: int| 0 <= a < b < after.len() implies seq_less(#[trigger] after[a], #[trigger] after[b]) by {
            if a < p && b < p {
            } else if a < p && b == p {
            } else if a < p && b > p {
                assert(after[a] == before[a] && after[b] == before[b - 1]);
                if a + 1 < b - 1 || a + 1 == b - 1 {
                }
                assert(seq_less(before[a], before[b - 1]));
            } else if a == p {
                assert(after[b] == before[b - 1]);
                if b - 1 > p {
                    assert(seq_less(before[p], before[b - 1]));
                    lemma_seq_less_transitive(sv, before[p], before[b - 1]);
                }
            } else {
                assert(after[a] == before[a - 1] && after[b] == before[b - 1]);
            }
        }
        assert forall|x: Seq<char>| after.to_set().contains(x) <==> before.to_set().insert(sv).contains(x) by {
            if after.to_set().contains(x) {
                let k = choose|k: int| 0 <= k < after.len() && after[k] == x;
                if k < p {
                    assert(before[k] == x);
                } else if k > p {
                    assert(before[k - 1] == x);
                }
            }
            if before.to_set().contains(x) {
                let k = choose|k: int| 0 <= k < before.len() && before[k] == x;
                if k < p {
                    assert(after[k] == x);
                } else {
                    assert(after[k + 1] == x);
                }
            }
            if x == sv {
                assert(after[p] == x);
            }
        }
        assert(after.to_set() =~= before.to_set().insert(sv));
    }
}

} // verus!
