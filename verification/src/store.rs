//! Keyed collections over string keys: account balances and sets of
//! transaction ids, each kept as an insertion-ordered list without duplicate
//! keys, and the facts about such lists that the ledger rules rely on.
use vstd::prelude::*;

use crate::text::str_equal;

verus! {

/// Keys of an entry list, each at most once.
pub open spec fn keys_distinct<V>(e: Seq<(Seq<char>, V)>) -> bool {
    forall|i: int, j: int| 0 <= i < j < e.len() ==> #[trigger] e[i].0 != #[trigger] e[j].0
}

/// Whether some entry has key `k`.
pub open spec fn has_key<V>(e: Seq<(Seq<char>, V)>, k: Seq<char>) -> bool {
    exists|i: int| 0 <= i < e.len() && #[trigger] e[i].0 == k
}

/// The position of key `k` in an entry list that holds it.
pub open spec fn index_of<V>(e: Seq<(Seq<char>, V)>, k: Seq<char>) -> int {
    choose|i: int| 0 <= i < e.len() && #[trigger] e[i].0 == k
}

/// The value stored under `k`, if any.
pub open spec fn lookup<V>(e: Seq<(Seq<char>, V)>, k: Seq<char>) -> Option<V> {
    if has_key(e, k) {
        Some(e[index_of(e, k)].1)
    } else {
        None
    }
}

/// The entry list after storing `v` under `k`: in place when the key is
/// present, appended otherwise.
pub open spec fn store_entry<V>(e: Seq<(Seq<char>, V)>, k: Seq<char>, v: V) -> Seq<(Seq<char>, V)> {
    if has_key(e, k) {
        e.update(index_of(e, k), (k, v))
    } else {
        e.push((k, v))
    }
}

/// The entry list after removing key `k`, the later entries shifting down.
pub open spec fn remove_entry<V>(e: Seq<(Seq<char>, V)>, k: Seq<char>) -> Seq<(Seq<char>, V)> {
    if has_key(e, k) {
        e.remove(index_of(e, k))
    } else {
        e
    }
}

/// In a list with distinct keys, the entry at `i` is the one found under its key.
pub proof fn lemma_index_of_unique<V>(e: Seq<(Seq<char>, V)>, i: int)
    requires
        keys_distinct(e),
        0 <= i < e.len(),
    ensures
        has_key(e, e[i].0),
        index_of(e, e[i].0) == i,
        lookup(e, e[i].0) == Some(e[i].1),
{
    assert(has_key(e, e[i].0));
    let j = index_of(e, e[i].0);
    if j != i {
        if j < i {
            assert(e[j].0 != e[i].0);
        } else {
            assert(e[i].0 != e[j].0);
        }
    }
}

/// Storing keeps keys distinct and makes the stored value the one found.
pub proof fn lemma_store_entry<V>(e: Seq<(Seq<char>, V)>, k: Seq<char>, v: V)
    requires
        keys_distinct(e),
    ensures
        keys_distinct(store_entry(e, k, v)),
        lookup(store_entry(e, k, v), k) == Some(v),
        forall|k2: Seq<char>| k2 != k ==> #[trigger] lookup(store_entry(e, k, v), k2) == lookup(e, k2),
        forall|k2: Seq<char>| #[trigger] has_key(store_entry(e, k, v), k2) <==> has_key(e, k2) || k2 == k,
{
    let r = store_entry(e, k, v);
    if has_key(e, k) {
        let idx = index_of(e, k);
        assert forall|i: int, j: int| 0 <= i < j < r.len() implies #[trigger] r[i].0 != #[trigger] r[j].0 by {
            if i != idx && j != idx {
                assert(e[i].0 != e[j].0);
            } else if i == idx {
                assert(e[i].0 != e[j].0);
            } else {
                assert(e[i].0 != e[j].0);
            }
        }
    } else {
        assert forall|i: int, j: int| 0 <= i < j < r.len() implies #[trigger] r[i].0 != #[trigger] r[j].0 by {
            if j == e.len() {
                assert(e[i].0 == r[i].0);
            } else {
                assert(e[i].0 != e[j].0);
            }
        }
    }
    assert(r[index_of(e, k)].0 == k || r[e.len() as int].0 == k);
    let ri = if has_key(e, k) { index_of(e, k) } else { e.len() as int };
    assert(r[ri].0 == k);
    lemma_index_of_unique(r, ri);
    assert forall|k2: Seq<char>| #[trigger] has_key(r, k2) <==> has_key(e, k2) || k2 == k by {
        if has_key(e, k2) {
            let i = index_of(e, k2);
            if k2 != k {
                assert(r[i].0 == k2);
            }
        }
        if has_key(r, k2) && k2 != k {
            let i = index_of(r, k2);
            assert(e[i].0 == k2);
        }
    }
    assert forall|k2: Seq<char>| k2 != k implies #[trigger] lookup(r, k2) == lookup(e, k2) by {
        if has_key(e, k2) {
            let i = index_of(e, k2);
            assert(r[i].0 == k2);
            lemma_index_of_unique(e, i);
            lemma_index_of_unique(r, i);
        }
    }
}

/// Removing keeps keys distinct and removes exactly key `k`.
pub proof fn lemma_remove_entry<V>(e: Seq<(Seq<char>, V)>, k: Seq<char>)
    requires
        keys_distinct(e),
    ensures
        keys_distinct(remove_entry(e, k)),
        !has_key(remove_entry(e, k), k),
        forall|k2: Seq<char>| k2 != k ==> #[trigger] lookup(remove_entry(e, k), k2) == lookup(e, k2),
        forall|k2: Seq<char>| #[trigger] has_key(remove_entry(e, k), k2) <==> has_key(e, k2) && k2 != k,
{
    let r = remove_entry(e, k);
    if has_key(e, k) {
        let idx = index_of(e, k);
        assert forall|i: int, j: int| 0 <= i < j < r.len() implies #[trigger] r[i].0 != #[trigger] r[j].0 by {
            let ei = if i < idx { i } else { i + 1 };
            let ej = if j < idx { j } else { j + 1 };
            assert(e[ei].0 != e[ej].0);
        }
        assert forall|k2: Seq<char>| #[trigger] has_key(r, k2) <==> has_key(e, k2) && k2 != k by {
            if has_key(r, k2) {
                let i = index_of(r, k2);
                let ei = if i < idx { i } else { i + 1 };
                assert(e[ei].0 == k2);
                if k2 == k {
                    assert(e[ei].0 == e[idx].0);
                    if ei < idx { assert(e[ei].0 != e[idx].0); } else { assert(e[idx].0 != e[ei].0); }
                }
            }
            if has_key(e, k2) && k2 != k {
                let i = index_of(e, k2);
                let ri = if i < idx { i } else { i - 1 };
                assert(r[ri].0 == k2);
            }
        }
        assert forall|k2: Seq<char>| k2 != k implies #[trigger] lookup(r, k2) == lookup(e, k2) by {
            if has_key(e, k2) {
                let i = index_of(e, k2);
                let ri = if i < idx { i } else { i - 1 };
                assert(r[ri].0 == k2);
                lemma_index_of_unique(e, i);
                lemma_index_of_unique(r, ri);
            }
        }
    }
}

/// The sum of the values of an entry list.
pub open spec fn sum_values(e: Seq<(Seq<char>, u64)>) -> int
    decreases e.len(),
{
    if e.len() == 0 {
        0
    } else {
        sum_values(e.drop_last()) + e.last().1
    }
}

proof fn lemma_sum_update(e: Seq<(Seq<char>, u64)>, i: int, p: (Seq<char>, u64))
    requires
        0 <= i < e.len(),
    ensures
        sum_values(e.update(i, p)) == sum_values(e) - e[i].1 + p.1,
    decreases e.len(),
{
    let u = e.update(i, p);
    if i == e.len() - 1 {
        assert(u.drop_last() =~= e.drop_last());
    } else {
        lemma_sum_update(e.drop_last(), i, p);
        assert(u.drop_last() =~= e.drop_last().update(i, p));
    }
}

proof fn lemma_value_le_sum(e: Seq<(Seq<char>, u64)>, i: int)
    requires
        0 <= i < e.len(),
    ensures
        e[i].1 <= sum_values(e),
        sum_values(e) >= 0,
    decreases e.len(),
{
    lemma_sum_nonneg(e.drop_last());
    if i < e.len() - 1 {
        lemma_value_le_sum(e.drop_last(), i);
    }
}

proof fn lemma_sum_nonneg(e: Seq<(Seq<char>, u64)>)
    ensures
        sum_values(e) >= 0,
    decreases e.len(),
{
    if e.len() > 0 {
        lemma_sum_nonneg(e.drop_last());
    }
}

/// The value stored under a key, 0 when the key is absent.
pub open spec fn value_or_zero(e: Seq<(Seq<char>, u64)>, k: Seq<char>) -> u64 {
    match lookup(e, k) {
        Some(v) => v,
        None => 0,
    }
}

/// Storing a value under a key changes the sum by the difference.
pub proof fn lemma_sum_store(e: Seq<(Seq<char>, u64)>, k: Seq<char>, v: u64)
    requires
        keys_distinct(e),
    ensures
        sum_values(store_entry(e, k, v)) == sum_values(e) - value_or_zero(e, k) + v,
{
    if has_key(e, k) {
        let i = index_of(e, k);
        lemma_sum_update(e, i, (k, v));
    } else {
        assert(e.push((k, v)).drop_last() =~= e);
    }
}

/// No value exceeds the sum, which is never negative.
pub proof fn lemma_value_le_total(e: Seq<(Seq<char>, u64)>, k: Seq<char>)
    ensures
        value_or_zero(e, k) <= sum_values(e),
        0 <= sum_values(e),
{
    lemma_sum_nonneg(e);
    if has_key(e, k) {
        let i = index_of(e, k);
        assert(0 <= i < e.len() && e[i].0 == k);
        lemma_value_le_sum(e, i);
    }
}

/// Account balances: public key to coins, in first-credit order.
#[derive(Debug)]
pub struct Balances {
    entries: Vec<(String, u64)>,
}

/// The key view of a list of `(String, u64)` pairs.
pub open spec fn pair_views(v: Seq<(String, u64)>) -> Seq<(Seq<char>, u64)> {
    v.map_values(|p: (String, u64)| (p.0@, p.1))
}

impl Balances {
    /// The balances as an entry list.
    pub closed spec fn entries(&self) -> Seq<(Seq<char>, u64)> {
        pair_views(self.entries@)
    }

    /// Every account appears once.
    pub closed spec fn wf(&self) -> bool {
        keys_distinct(self.entries())
    }

    /// The balance of an account; accounts never credited hold 0.
    pub open spec fn balance(&self, account: Seq<char>) -> u64 {
        match lookup(self.entries(), account) {
            Some(v) => v,
            None => 0,
        }
    }

    /// The coins held by all accounts together.
    pub open spec fn total(&self) -> int {
        sum_values(self.entries())
    }

    /// No account holds anything yet.
    pub fn new() -> (res: Self)
        ensures
            res.wf(),
            res.entries() == Seq::<(Seq<char>, u64)>::empty(),
            res.total() == 0,
            forall|a: Seq<char>| res.balance(a) == 0,
    {
        let res = Balances { entries: Vec::new() };
        assert(res.entries() =~= Seq::<(Seq<char>, u64)>::empty());
        res
    }

    /// A copy of the balances.
    pub fn duplicate(&self) -> (res: Self)
        ensures
            res.entries() == self.entries(),
            res.wf() == self.wf(),
    {
        let mut entries: Vec<(String, u64)> = Vec::new();
        let mut i: usize = 0;
        while i < self.entries.len()
            invariant
                i <= self.entries@.len(),
                pair_views(entries@) == pair_views(self.entries@).take(i as int),
            decreases self.entries@.len() - i,
        {
            let k = self.entries[i].0.clone();
            let v = self.entries[i].1;
            let ghost before = entries@;
            assert(k@ == self.entries@[i as int].0@);
            entries.push((k, v));
            assert(entries@ == before.push((k, v)));
            assert(pair_views(entries@) =~= pair_views(before).push((k@, v)));
            assert(pair_views(entries@) =~= pair_views(self.entries@).take(i + 1));
            i = i + 1;
        }
        let res = Balances { entries };
        assert(res.entries() =~= self.entries());
        res
    }

    fn position(&self, account: &str) -> (res: Option<usize>)
        requires
            self.wf(),
        ensures
            res is Some <==> has_key(self.entries(), account@),
            res matches Some(i) ==> i < self.entries@.len() && i == index_of(self.entries(), account@),
    {
        let mut i: usize = 0;
        while i < self.entries.len()
            invariant
                self.wf(),
                i <= self.entries@.len(),
                forall|j: int| 0 <= j < i ==> #[trigger] self.entries()[j].0 != account@,
            decreases self.entries@.len() - i,
        {
            if str_equal(&self.entries[i].0, account) {
                proof { lemma_index_of_unique(self.entries(), i as int); }
                return Some(i);
            }
            i = i + 1;
        }
        None
    }

    /// The balance of an account.
    pub fn get(&self, account: &str) -> (res: u64)
        requires
            self.wf(),
        ensures
            res == self.balance(account@),
    {
        match self.position(account) {
            Some(i) => self.entries[i].1,
            None => 0,
        }
    }

    /// Sets the balance of an account.
    pub fn set(&mut self, account: &str, amount: u64)
        requires
            old(self).wf(),
        ensures
            final(self).wf(),
            final(self).entries() == store_entry(old(self).entries(), account@, amount),
            final(self).balance(account@) == amount,
            forall|a: Seq<char>| a != account@ ==> #[trigger] final(self).balance(a) == old(self).balance(a),
            final(self).total() == old(self).total() - old(self).balance(account@) + amount,
    {
        proof { lemma_store_entry(self.entries(), account@, amount); }
        match self.position(account) {
            Some(i) => {
                proof {
                    lemma_index_of_unique(self.entries(), i as int);
                    lemma_sum_update(self.entries(), i as int, (account@, amount));
                }
                let key = self.entries[i].0.clone();
                self.entries.set(i, (key, amount));
                assert(self.entries() =~= store_entry(old(self).entries(), account@, amount));
            },
            None => {
                self.entries.push((crate::text::owned(account), amount));
                assert(self.entries() =~= store_entry(old(self).entries(), account@, amount));
                assert(self.entries().drop_last() =~= old(self).entries());
            },
        }
    }

    /// A well-formed balance list holds each account once.
    pub proof fn lemma_wf_keys(&self)
        requires
            self.wf(),
        ensures
            keys_distinct(self.entries()),
    {
    }

    /// No single account holds more than all accounts together.
    pub proof fn lemma_balance_le_total(&self, account: Seq<char>)
        requires
            self.wf(),
        ensures
            self.balance(account) <= self.total(),
            0 <= self.total(),
    {
        lemma_sum_nonneg(self.entries());
        if has_key(self.entries(), account) {
            lemma_value_le_sum(self.entries(), index_of(self.entries(), account));
        }
    }

    /// The balances as `(account, amount)` pairs, in first-credit order.
    pub fn to_pairs(&self) -> (res: Vec<(String, u64)>)
        ensures
            pair_views(res@) == self.entries(),
    {
        let d = self.duplicate();
        d.entries
    }
}

/// A set of strings (transaction ids, peer addresses), in insertion order.
#[derive(Debug)]
pub struct StringSet {
    ids: Vec<String>,
}

impl StringSet {
    /// The ids, in insertion order.
    pub closed spec fn items(&self) -> Seq<Seq<char>> {
        self.ids@.map_values(|s: String| s@)
    }

    /// Each id appears once.
    pub open spec fn wf(&self) -> bool {
        self.items().no_duplicates()
    }

    /// Whether an id is in the set.
    pub open spec fn has(&self, id: Seq<char>) -> bool {
        self.items().contains(id)
    }

    /// The number of ids.
    pub open spec fn size(&self) -> nat {
        self.items().len()
    }

    /// The empty set.
    pub fn new() -> (res: Self)
        ensures
            res.wf(),
            res.items() == Seq::<Seq<char>>::empty(),
    {
        let res = StringSet { ids: Vec::new() };
        assert(res.items() =~= Seq::<Seq<char>>::empty());
        res
    }

    /// A copy of the set.
    pub fn duplicate(&self) -> (res: Self)
        ensures
            res.items() == self.items(),
    {
        let mut ids: Vec<String> = Vec::new();
        for i in 0..self.ids.len()
            invariant
                ids@.len() == i,
                forall|j: int| 0 <= j < i ==> #[trigger] ids@[j]@ == self.ids@[j]@,
        {
            ids.push(self.ids[i].clone());
        }
        let res = StringSet { ids };
        assert(res.items() =~= self.items());
        res
    }

    /// Whether an id is in the set.
    pub fn contains(&self, id: &str) -> (res: bool)
        ensures
            res == self.has(id@),
    {
        let mut i: usize = 0;
        while i < self.ids.len()
            invariant
                i <= self.ids@.len(),
                forall|j: int| 0 <= j < i ==> #[trigger] self.items()[j] != id@,
            decreases self.ids@.len() - i,
        {
            if str_equal(&self.ids[i], id) {
                assert(self.items()[i as int] == id@);
                return true;
            }
            i = i + 1;
        }
        false
    }

    /// Adds an id; returns whether it was new.
    pub fn insert(&mut self, id: &str) -> (res: bool)
        requires
            old(self).wf(),
        ensures
            final(self).wf(),
            res == !old(self).has(id@),
            res ==> final(self).items() == old(self).items().push(id@),
            !res ==> final(self).items() == old(self).items(),
    {
        if self.contains(id) {
            return false;
        }
        self.ids.push(crate::text::owned(id));
        assert(self.items() =~= old(self).items().push(id@));
        true
    }

    /// Removes an id; returns whether it was there. The others keep their order.
    pub fn remove(&mut self, id: &str) -> (res: bool)
        requires
            old(self).wf(),
        ensures
            final(self).wf(),
            res == old(self).has(id@),
            !res ==> final(self).items() == old(self).items(),
            res ==> exists|k: int| 0 <= k < old(self).items().len() && old(self).items()[k] == id@ && final(self).items()
                == old(self).items().remove(k),
            forall|x: Seq<char>| final(self).has(x) <==> (old(self).has(x) && x != id@),
    {
        let mut i: usize = 0;
        while i < self.ids.len()
            invariant
                i <= self.ids@.len(),
                self.items() == old(self).items(),
                self.wf(),
                forall|j: int| 0 <= j < i ==> #[trigger] self.items()[j] != id@,
            decreases self.ids@.len() - i,
        {
            if str_equal(&self.ids[i], id) {
                let ghost before = self.items();
                assert(before[i as int] == id@);
                self.ids.remove(i);
                assert(self.items() =~= before.remove(i as int));
                proof {
                    let after = self.items();
                    assert forall|a: int, b: int| 0 <= a < after.len() && 0 <= b < after.len() && a != b implies after[a]
                        != after[b] by {
                        let a0 = if a < i { a } else { a + 1 };
                        let b0 = if b < i { b } else { b + 1 };
                        assert(after[a] == before[a0]);
                        assert(after[b] == before[b0]);
                    }
                    assert(after.no_duplicates());
                    assert forall|x: Seq<char>| self.has(x) <==> (before.contains(x) && x != id@) by {
                        if self.has(x) {
                            let k = choose|k: int| 0 <= k < self.items().len() && self.items()[k] == x;
                            if k < i {
                                assert(before[k] == x);
                            } else {
                                assert(before[k + 1] == x);
                            }
                            assert(x != id@) by {
                                if x == id@ {
                                    if k < i {
                                        assert(before[k] == before[i as int]);
                                    } else {
                                        assert(before[k + 1] == before[i as int]);
                                    }
                                }
                            }
                        }
                        if before.contains(x) && x != id@ {
                            let k = choose|k: int| 0 <= k < before.len() && before[k] == x;
                            if k < i {
                                assert(self.items()[k] == x);
                            } else {
                                assert(k != i);
                                assert(self.items()[k - 1] == x);
                            }
                        }
                    }
                }
                return true;
            }
            i = i + 1;
        }
        assert(!self.has(id@));
        false
    }

    /// A set never holds more ids than a vector can.
    pub proof fn lemma_size_bound(&self)
        ensures
            self.size() <= usize::MAX,
    {
        vstd::std_specs::vec::axiom_spec_len(&self.ids);
        assert(vstd::std_specs::vec::spec_vec_len(&self.ids) == self.ids@.len());
    }

    /// The ids, in insertion order.
    pub fn to_vec(&self) -> (res: Vec<String>)
        ensures
            res@.map_values(|s: String| s@) == self.items(),
    {
        self.duplicate().ids
    }
}

} // verus!
