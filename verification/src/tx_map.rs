//! Maps keyed by transaction identifier and walked from the oldest
//! transaction to the youngest.

use crate::txid::TxId;
use vstd::prelude::*;

verus! {

/// Whether the entries stand in strictly increasing order of identifier.
pub open spec fn tx_sorted<V>(entries: Seq<(TxId, V)>) -> bool {
    forall|i: int, j: int|
        0 <= i < j < entries.len() ==> (#[trigger] entries[i]).0.spec_lt((#[trigger] entries[j]).0)
}

/// Whether some entry belongs to `txid`.
pub open spec fn tx_has<V>(entries: Seq<(TxId, V)>, txid: TxId) -> bool {
    exists|i: int| 0 <= i < entries.len() && (#[trigger] entries[i]).0 == txid
}

/// The place of the entry of `txid`.
pub open spec fn tx_index_of<V>(entries: Seq<(TxId, V)>, txid: TxId) -> int {
    choose|i: int| 0 <= i < entries.len() && (#[trigger] entries[i]).0 == txid
}

/// Whether `rank` entries are older than `txid` and all the others are not.
pub open spec fn tx_is_rank<V>(entries: Seq<(TxId, V)>, txid: TxId, rank: int) -> bool {
    &&& 0 <= rank <= entries.len()
    &&& forall|j: int| 0 <= j < rank ==> (#[trigger] entries[j]).0.spec_lt(txid)
    &&& forall|j: int| rank <= j < entries.len() ==> !(#[trigger] entries[j]).0.spec_lt(txid)
}

/// The number of entries that are older than `txid`.
pub open spec fn tx_rank<V>(entries: Seq<(TxId, V)>, txid: TxId) -> int {
    choose|rank: int| tx_is_rank(entries, txid, rank)
}

/// There is one rank only.
pub proof fn lemma_rank_unique<V>(entries: Seq<(TxId, V)>, txid: TxId, rank: int)
    requires
        tx_is_rank(entries, txid, rank),
    ensures
        tx_rank(entries, txid) == rank,
{
    let other = tx_rank(entries, txid);
    assert(tx_is_rank(entries, txid, other));
    if other < rank {
        assert(entries[other].0.spec_lt(txid));
    } else if rank < other {
        assert(entries[rank].0.spec_lt(txid));
    }
}

/// In sorted entries an identifier stands at one place only.
pub proof fn lemma_index_unique<V>(entries: Seq<(TxId, V)>, i: int)
    requires
        tx_sorted(entries),
        0 <= i < entries.len(),
    ensures
        tx_has(entries, entries[i].0),
        tx_index_of(entries, entries[i].0) == i,
{
    let j = tx_index_of(entries, entries[i].0);
    assert(0 <= j < entries.len() && entries[j].0 == entries[i].0);
    if j < i {
        assert(entries[j].0.spec_lt(entries[i].0));
    } else if i < j {
        assert(entries[i].0.spec_lt(entries[j].0));
    }
}

/// The value of the entry of `txid`.
pub open spec fn tx_value<V>(entries: Seq<(TxId, V)>, txid: TxId) -> V {
    entries[tx_index_of(entries, txid)].1
}

/// Whether `after` holds what `before` holds and, under `txid`, `value`.
pub open spec fn tx_inserted<V>(
    before: Seq<(TxId, V)>,
    after: Seq<(TxId, V)>,
    txid: TxId,
    value: V,
) -> bool {
    &&& tx_sorted(after)
    &&& tx_has(after, txid)
    &&& tx_value(after, txid) == value
    &&& forall|u: TxId|
        #![trigger tx_has(after, u)]
        #![trigger tx_has(before, u)]
        tx_has(after, u) <==> tx_has(before, u) || u == txid
    &&& forall|u: TxId|
        #![trigger tx_value(after, u)]
        #![trigger tx_value(before, u)]
        u != txid && tx_has(before, u) ==> tx_value(after, u) == tx_value(before, u)
}

/// Whether `after` holds what `before` holds, but for the entry of `txid`.
pub open spec fn tx_removed<V>(before: Seq<(TxId, V)>, after: Seq<(TxId, V)>, txid: TxId) -> bool {
    &&& tx_sorted(after)
    &&& forall|u: TxId|
        #![trigger tx_has(after, u)]
        #![trigger tx_has(before, u)]
        tx_has(after, u) <==> tx_has(before, u) && u != txid
    &&& forall|u: TxId|
        #![trigger tx_value(after, u)]
        #![trigger tx_value(before, u)]
        u != txid && tx_has(before, u) ==> tx_value(after, u) == tx_value(before, u)
}

/// Putting an entry at its place among sorted entries adds that entry and
/// leaves the others as they are.
pub proof fn lemma_insert_effect<V>(before: Seq<(TxId, V)>, at: int, txid: TxId, value: V)
    requires
        tx_sorted(before),
        0 <= at <= before.len(),
        !tx_has(before, txid),
        tx_sorted(before.insert(at, (txid, value))),
    ensures
        tx_inserted(before, before.insert(at, (txid, value)), txid, value),
{
    let after = before.insert(at, (txid, value));
    assert(after[at] == (txid, value));
    lemma_index_unique(after, at);
    assert forall|u: TxId| tx_has(after, u) implies tx_has(before, u) || u == txid by {
        let j = tx_index_of(after, u);
        if j < at {
            assert(before[j].0 == u);
        } else if j > at {
            assert(before[j - 1].0 == u);
        }
    }
    assert forall|u: TxId| u != txid && tx_has(before, u) implies tx_has(after, u) && tx_value(
        after,
        u,
    ) == tx_value(before, u) by {
        let j = tx_index_of(before, u);
        let jj = if j < at { j } else { j + 1 };
        assert(after[jj] == before[j]);
        lemma_index_unique(after, jj);
    }
}

/// Replacing the value of an entry leaves the other entries as they are.
pub proof fn lemma_update_effect<V>(before: Seq<(TxId, V)>, at: int, value: V)
    requires
        tx_sorted(before),
        0 <= at < before.len(),
    ensures
        tx_inserted(before, before.update(at, (before[at].0, value)), before[at].0, value),
{
    let txid = before[at].0;
    let after = before.update(at, (txid, value));
    assert forall|i: int, j: int| 0 <= i < j < after.len() implies (#[trigger] after[i]).0.spec_lt(
        (#[trigger] after[j]).0,
    ) by {
        assert(before[i].0.spec_lt(before[j].0));
    }
    assert(after[at] == (txid, value));
    lemma_index_unique(after, at);
    assert forall|u: TxId| tx_has(after, u) implies tx_has(before, u) || u == txid by {
        let j = tx_index_of(after, u);
        assert(before[j].0 == u);
    }
    assert forall|u: TxId| u != txid && tx_has(before, u) implies tx_has(after, u) && tx_value(
        after,
        u,
    ) == tx_value(before, u) by {
        let j = tx_index_of(before, u);
        assert(after[j] == before[j]);
        lemma_index_unique(after, j);
    }
}

/// Taking an entry out of sorted entries leaves the others as they are.
pub proof fn lemma_remove_effect<V>(before: Seq<(TxId, V)>, at: int)
    requires
        tx_sorted(before),
        0 <= at < before.len(),
    ensures
        tx_removed(before, before.remove(at), before[at].0),
{
    let txid = before[at].0;
    let after = before.remove(at);
    assert forall|i: int, j: int| 0 <= i < j < after.len() implies (#[trigger] after[i]).0.spec_lt(
        (#[trigger] after[j]).0,
    ) by {
        let ii = if i < at { i } else { i + 1 };
        let jj = if j < at { j } else { j + 1 };
        assert(before[ii].0.spec_lt(before[jj].0));
    }
    assert forall|u: TxId| tx_has(after, u) implies tx_has(before, u) && u != txid by {
        let j = tx_index_of(after, u);
        let jj = if j < at { j } else { j + 1 };
        assert(before[jj].0 == u);
        if jj < at {
            assert(before[jj].0.spec_lt(before[at].0));
        } else {
            assert(before[at].0.spec_lt(before[jj].0));
        }
    }
    assert forall|u: TxId| u != txid && tx_has(before, u) implies tx_has(after, u) && tx_value(
        after,
        u,
    ) == tx_value(before, u) by {
        let j = tx_index_of(before, u);
        let jj = if j < at { j } else { j - 1 };
        assert(after[jj] == before[j]);
        lemma_index_unique(after, jj);
    }
}

/// A map from transaction identifiers to values, kept in the order of the
/// identifiers.
#[derive(Debug, PartialEq, Eq)]
pub struct TxMap<V> {
    keys: Vec<TxId>,
    values: Vec<V>,
}

impl<V> TxMap<V> {
    /// The entries, oldest transaction first.
    pub closed spec fn view(&self) -> Seq<(TxId, V)> {
        Seq::new(self.keys@.len(), |i: int| (self.keys@[i], self.values@[i]))
    }

    /// The entries stand in strictly increasing order. This holds of every map.
    #[verifier::type_invariant]
    pub closed spec fn wf(&self) -> bool {
        &&& self.keys@.len() == self.values@.len()
        &&& forall|i: int, j: int|
            0 <= i < j < self.keys@.len() ==> (#[trigger] self.keys@[i]).spec_lt(
                #[trigger] self.keys@[j],
            )
    }

    /// The entries of a map are sorted.
    pub fn sorted(&self)
        ensures
            tx_sorted(self@),
    {
        proof {
            use_type_invariant(&*self);
            assert forall|i: int, j: int| 0 <= i < j < self@.len() implies (#[trigger] self@[i]).0.spec_lt(
                (#[trigger] self@[j]).0,
            ) by {
                assert(self.keys@[i].spec_lt(self.keys@[j]));
            }
        }
    }

    pub fn new() -> (m: Self)
        ensures
            m@ == Seq::<(TxId, V)>::empty(),
    {
        let m = TxMap { keys: Vec::new(), values: Vec::new() };
        assert(m@ =~= Seq::<(TxId, V)>::empty());
        m
    }

    pub fn len(&self) -> (n: usize)
        ensures
            n == self@.len(),
    {
        self.keys.len()
    }

    pub fn is_empty(&self) -> (b: bool)
        ensures
            b == (self@.len() == 0),
    {
        self.keys.len() == 0
    }

    /// The number of entries that are older than `txid`.
    pub fn rank(&self, txid: &TxId) -> (rank: usize)
        ensures
            tx_is_rank(self@, *txid, rank as int),
            rank == tx_rank(self@, *txid),
            tx_sorted(self@),
    {
        self.sorted();
        let mut i: usize = 0;
        while i < self.keys.len() && self.keys[i].precedes(txid)
            invariant
                i <= self.keys@.len(),
                self@.len() == self.keys@.len(),
                forall|j: int| 0 <= j < i ==> (#[trigger] self@[j]).0.spec_lt(*txid),
            decreases self.keys@.len() - i,
        {
            i += 1;
        }
        proof {
            assert forall|j: int| i <= j < self@.len() implies !(#[trigger] self@[j]).0.spec_lt(
                *txid,
            ) by {
                if i < j {
                    assert(self@[i as int].0.spec_lt(self@[j].0));
                }
            }
            lemma_rank_unique(self@, *txid, i as int);
        }
        i
    }

    /// The place of the entry of `txid`.
    pub fn find(&self, txid: &TxId) -> (at: Option<usize>)
        ensures
            match at {
                Some(i) => i < self@.len() && self@[i as int].0 == *txid && tx_index_of(self@, *txid)
                    == i,
                None => !tx_has(self@, *txid),
            },
            at.is_some() == tx_has(self@, *txid),
            tx_sorted(self@),
    {
        let i = self.rank(txid);
        if i < self.keys.len() && self.keys[i] == *txid {
            proof {
                lemma_index_unique(self@, i as int);
            }
            Some(i)
        } else {
            proof {
                if tx_has(self@, *txid) {
                    let j = tx_index_of(self@, *txid);
                    if j < i {
                        assert(self@[j].0.spec_lt(*txid));
                    } else if j > i {
                        assert(self@[i as int].0.spec_lt(self@[j].0));
                    }
                }
            }
            None
        }
    }

    pub fn contains_key(&self, txid: &TxId) -> (b: bool)
        ensures
            b == tx_has(self@, *txid),
    {
        self.find(txid).is_some()
    }

    /// The identifier of the `i`-th entry.
    pub fn key_at(&self, i: usize) -> (txid: TxId)
        requires
            i < self@.len(),
        ensures
            txid == self@[i as int].0,
    {
        self.keys[i]
    }

    /// The value of the `i`-th entry.
    pub fn value_at(&self, i: usize) -> (value: &V)
        requires
            i < self@.len(),
        ensures
            *value == self@[i as int].1,
    {
        proof {
            use_type_invariant(&*self);
        }
        &self.values[i]
    }

    /// The value of the `i`-th entry, to change it in place.
    pub fn value_at_mut(&mut self, i: usize) -> (value: &mut V)
        requires
            i < old(self)@.len(),
        ensures
            *value == old(self)@[i as int].1,
            final(self)@ =~= old(self)@.update(i as int, (old(self)@[i as int].0, *final(value))),
            tx_inserted(old(self)@, final(self)@, old(self)@[i as int].0, *final(value)),
    {
        self.sorted();
        proof {
            let before = self@;
            assert forall|value: V| #[trigger]
                tx_inserted(before, before.update(i as int, (before[i as int].0, value)), before[i as int].0, value) by {
                lemma_update_effect(before, i as int, value);
            }
        }
        proof {
            use_type_invariant(&*self);
        }
        &mut self.values[i]
    }

    pub fn get(&self, txid: &TxId) -> (value: Option<&V>)
        ensures
            match value {
                Some(v) => tx_has(self@, *txid) && *v == self@[tx_index_of(self@, *txid)].1,
                None => !tx_has(self@, *txid),
            },
    {
        match self.find(txid) {
            Some(i) => {
                proof {
                    use_type_invariant(&*self);
                }
                Some(&self.values[i])
            },
            None => None,
        }
    }

    /// The value of `txid`, to change it in place.
    pub fn get_mut(&mut self, txid: &TxId) -> (value: Option<&mut V>)
        ensures
            match value {
                Some(v) => {
                    &&& tx_has(old(self)@, *txid)
                    &&& *v == old(self)@[tx_index_of(old(self)@, *txid)].1
                    &&& final(self)@ == old(self)@.update(
                        tx_index_of(old(self)@, *txid),
                        (*txid, *final(v)),
                    )
                },
                None => !tx_has(old(self)@, *txid) && *final(self) == *old(self),
            },
            value matches Some(v) ==> tx_inserted(old(self)@, final(self)@, *txid, *final(v)),
    {
        match self.find(txid) {
            Some(i) => Some(self.value_at_mut(i)),
            None => None,
        }
    }

    /// Stores `value` under `txid`, at the place that the order gives it.
    /// Returns the value that it replaces, if there is one.
    pub fn insert(&mut self, txid: TxId, value: V) -> (prior: Option<V>)
        ensures
            tx_inserted(old(self)@, final(self)@, txid, value),
            prior is Some == tx_has(old(self)@, txid),
            match prior {
                Some(p) => {
                    &&& tx_has(old(self)@, txid)
                    &&& p == old(self)@[tx_index_of(old(self)@, txid)].1
                    &&& final(self)@ == old(self)@.update(
                        tx_index_of(old(self)@, txid),
                        (txid, value),
                    )
                },
                None => {
                    &&& !tx_has(old(self)@, txid)
                    &&& final(self)@ == old(self)@.insert(tx_rank(old(self)@, txid), (txid, value))
                },
            },
    {
        let ghost before = self@;
        proof {
            use_type_invariant(&*self);
        }
        self.sorted();
        let at = self.rank(&txid);
        let present = at < self.keys.len() && self.keys[at] == txid;
        let mut taken = TxMap::new();
        core::mem::swap(self, &mut taken);
        let TxMap { keys: mut keys, values: mut values } = taken;
        let prior = if present {
            proof {
                lemma_index_unique(before, at as int);
            }
            values.push(value);
            let old_value = values.swap_remove(at);
            Some(old_value)
        } else {
            proof {
                if tx_has(before, txid) {
                    let j = tx_index_of(before, txid);
                    if j < at {
                        assert(before[j].0.spec_lt(txid));
                    } else if j > at {
                        assert(before[at as int].0.spec_lt(before[j].0));
                    }
                }
            }
            keys.insert(at, txid);
            values.insert(at, value);
            None
        };
        let ghost after = Seq::new(keys@.len(), |i: int| (keys@[i], values@[i]));
        proof {
            if present {
                assert(after =~= before.update(at as int, (txid, value)));
                assert forall|i: int, j: int| 0 <= i < j < after.len() implies (#[trigger] after[i]).0.spec_lt(
                    (#[trigger] after[j]).0,
                ) by {
                    assert(before[i].0.spec_lt(before[j].0));
                }
            } else {
                assert(after =~= before.insert(at as int, (txid, value)));
                assert forall|i: int, j: int| 0 <= i < j < after.len() implies (#[trigger] after[i]).0.spec_lt(
                    (#[trigger] after[j]).0,
                ) by {
                    let a = at as int;
                    if j < a {
                        assert(before[i].0.spec_lt(before[j].0));
                    } else if j == a {
                        assert(before[i].0.spec_lt(txid));
                    } else if i < a {
                        assert(before[i].0.spec_lt(before[j - 1].0));
                    } else if i == a {
                        assert(!before[j - 1].0.spec_lt(txid));
                        assert(before[j - 1].0 != txid) by {
                            if tx_has(before, txid) {
                            }
                        }
                    } else {
                        assert(before[i - 1].0.spec_lt(before[j - 1].0));
                    }
                }
            }
        }
        proof {
            assert forall|i: int, j: int| 0 <= i < j < keys@.len() implies (#[trigger] keys@[i]).spec_lt(
                #[trigger] keys@[j],
            ) by {
                assert(after[i].0.spec_lt(after[j].0));
            }
            if present {
                lemma_update_effect(before, at as int, value);
            } else {
                lemma_insert_effect(before, at as int, txid, value);
            }
        }
        *self = TxMap { keys, values };
        prior
    }

    /// Stores `value` under `txid`, which has no entry yet, at the place that
    /// the order gives it. Returns that place.
    pub fn insert_new(&mut self, txid: TxId, value: V) -> (at: usize)
        requires
            !tx_has(old(self)@, txid),
        ensures
            at == tx_rank(old(self)@, txid),
            final(self)@ == old(self)@.insert(at as int, (txid, value)),
            tx_inserted(old(self)@, final(self)@, txid, value),
    {
        let at = self.rank(&txid);
        let prior = self.insert(txid, value);
        at
    }

    /// Takes the `i`-th entry out.
    pub fn remove_at(&mut self, i: usize) -> (entry: (TxId, V))
        requires
            i < old(self)@.len(),
        ensures
            entry == old(self)@[i as int],
            final(self)@ == old(self)@.remove(i as int),
            tx_removed(old(self)@, final(self)@, entry.0),
    {
        proof {
            use_type_invariant(&*self);
        }
        self.sorted();
        let ghost before = self@;
        let mut taken = TxMap::new();
        core::mem::swap(self, &mut taken);
        let TxMap { keys: mut keys, values: mut values } = taken;
        let key = keys.remove(i);
        let value = values.remove(i);
        let ghost after = Seq::new(keys@.len(), |k: int| (keys@[k], values@[k]));
        proof {
            assert(after =~= before.remove(i as int));
            assert forall|a: int, b: int| 0 <= a < b < after.len() implies (#[trigger] after[a]).0.spec_lt(
                (#[trigger] after[b]).0,
            ) by {
                let aa = if a < i { a } else { a + 1 };
                let bb = if b < i { b } else { b + 1 };
                assert(before[aa].0.spec_lt(before[bb].0));
            }
        }
        proof {
            assert forall|a: int, b: int| 0 <= a < b < keys@.len() implies (#[trigger] keys@[a]).spec_lt(
                #[trigger] keys@[b],
            ) by {
                assert(after[a].0.spec_lt(after[b].0));
            }
        }
        *self = TxMap { keys, values };
        proof {
            lemma_remove_effect(before, i as int);
        }
        (key, value)
    }

    /// Takes the entry of `txid` out, if there is one.
    pub fn remove(&mut self, txid: &TxId) -> (prior: Option<V>)
        ensures
            prior is Some ==> tx_removed(old(self)@, final(self)@, *txid),
            prior is None ==> *final(self) == *old(self),
            match prior {
                Some(p) => {
                    &&& tx_has(old(self)@, *txid)
                    &&& p == old(self)@[tx_index_of(old(self)@, *txid)].1
                    &&& final(self)@ == old(self)@.remove(tx_index_of(old(self)@, *txid))
                },
                None => !tx_has(old(self)@, *txid) && final(self)@ == old(self)@,
            },
    {
        match self.find(txid) {
            Some(i) => {
                let entry = self.remove_at(i);
                Some(entry.1)
            },
            None => None,
        }
    }
}

} // verus!
