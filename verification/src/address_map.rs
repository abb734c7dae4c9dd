//! Small collections keyed by actor address.
//!
//! Both keep their entries in the order in which the addresses first arrived,
//! so walking one of them is deterministic. No address occurs twice.

use crate::actor::Address;
use vstd::prelude::*;

verus! {

/// In a sequence without duplicates, an element is found where it stands.
pub proof fn lemma_index_of_unique<T>(s: Seq<T>, i: int)
    requires
        s.no_duplicates(),
        0 <= i < s.len(),
    ensures
        s.index_of(s[i]) == i,
{
    let j = s.index_of(s[i]);
    assert(s.contains(s[i]));
    assert(0 <= j < s.len() && s[j] == s[i]);
}

/// A finite map from addresses to values.
#[derive(Debug, PartialEq, Eq)]
pub struct AddressMap<V> {
    keys: Vec<Address>,
    values: Vec<V>,
}

impl<V> AddressMap<V> {
    /// The addresses of the map, in the order in which they were first inserted.
    pub closed spec fn keys(&self) -> Seq<Address> {
        self.keys@
    }

    /// The values of the map; `values()[i]` belongs to `keys()[i]`.
    pub closed spec fn values(&self) -> Seq<V> {
        self.values@
    }

    /// Every key has one value and no key occurs twice. This holds of every
    /// map.
    #[verifier::type_invariant]
    pub open spec fn wf(&self) -> bool {
        &&& self.keys().len() == self.values().len()
        &&& self.keys().no_duplicates()
    }

    /// The map as a mathematical map: it maps `keys()[i]` to `values()[i]`.
    pub closed spec fn view(&self) -> Map<Address, V> {
        Map::new(
            |a: Address| self.keys().contains(a),
            |a: Address| self.values()[self.keys().index_of(a)],
        )
    }

    /// The value stored under the `i`-th key is the one the view gives it.
    pub proof fn lemma_view_at(&self, i: int)
        requires
            self.wf(),
            0 <= i < self.keys().len(),
        ensures
            self@.contains_key(self.keys()[i]),
            self@[self.keys()[i]] == self.values()[i],
            self.keys().index_of(self.keys()[i]) == i,
    {
        lemma_index_of_unique(self.keys(), i);
        assert(self.keys().contains(self.keys()[i]));
    }

    /// The view has exactly the keys of `keys()`, so it is finite and as large.
    pub proof fn lemma_view_dom(&self)
        requires
            self.wf(),
        ensures
            self@.dom() =~= self.keys().to_set(),
            self@.dom().finite(),
            self@.dom().len() == self.keys().len(),
            forall|a: Address| #[trigger] self@.contains_key(a) <==> self.keys().contains(a),
            forall|a: Address|
                self.keys().contains(a) ==> #[trigger] self@[a] == self.values()[self.keys().index_of(
                    a,
                )],
    {
        assert(self@.dom() =~= self.keys().to_set());
        self.keys().unique_seq_to_set();
    }

    /// Two maps with the same keys and values, in the same order, are the same
    /// mathematical map.
    pub proof fn lemma_same_entries(&self, other: &Self)
        requires
            self.keys() == other.keys(),
            self.values() == other.values(),
        ensures
            self@ == other@,
    {
        assert(self@ =~= other@);
    }

    /// The entries of a map are in step: as many values as keys, and no key
    /// twice.
    pub fn in_step(&self)
        ensures
            self.wf(),
    {
        proof {
            use_type_invariant(&*self);
        }
    }

    pub fn new() -> (m: Self)
        ensures
            m@ == Map::<Address, V>::empty(),
            m.keys() == Seq::<Address>::empty(),
            m.values() == Seq::<V>::empty(),
    {
        let m = AddressMap { keys: Vec::new(), values: Vec::new() };
        assert(m@ =~= Map::<Address, V>::empty());
        m
    }

    pub fn len(&self) -> (n: usize)
        ensures
            n == self.keys().len(),
            n == self.values().len(),
    {
        proof {
            use_type_invariant(&*self);
        }
        self.keys.len()
    }

    pub fn is_empty(&self) -> (b: bool)
        ensures
            b == (self.keys().len() == 0),
            b == (self@ == Map::<Address, V>::empty()),
    {
        proof {
            use_type_invariant(&*self);
        }
        let b = self.keys.len() == 0;
        proof {
            if b {
                assert(self@ =~= Map::<Address, V>::empty());
            } else {
                self.lemma_view_at(0);
            }
        }
        b
    }

    /// The position of `address` among the keys.
    pub fn find(&self, address: Address) -> (at: Option<usize>)
        ensures
            match at {
                Some(i) => i < self.keys().len() && self.keys()[i as int] == address
                    && self.keys().index_of(address) == i,
                None => !self.keys().contains(address),
            },
            at.is_some() == self@.contains_key(address),
    {
        proof {
            use_type_invariant(&*self);
        }
        let mut i: usize = 0;
        while i < self.keys.len()
            invariant
                self.wf(),
                i <= self.keys@.len(),
                forall|j: int| 0 <= j < i ==> self.keys@[j] != address,
            decreases self.keys@.len() - i,
        {
            if self.keys[i] == address {
                proof {
                    lemma_index_of_unique(self.keys(), i as int);
                    assert(self.keys().contains(address));
                }
                return Some(i);
            }
            i += 1;
        }
        None
    }

    pub fn contains_key(&self, address: Address) -> (b: bool)
        ensures
            b == self@.contains_key(address),
    {
        self.find(address).is_some()
    }

    /// The `i`-th key.
    pub fn key_at(&self, i: usize) -> (a: Address)
        requires
            i < self.keys().len(),
        ensures
            a == self.keys()[i as int],
            self@.contains_key(a),
    {
        proof {
            use_type_invariant(&*self);
            self.lemma_view_at(i as int);
        }
        self.keys[i]
    }

    /// The value of the `i`-th key.
    pub fn value_at(&self, i: usize) -> (v: &V)
        requires
            i < self.keys().len(),
        ensures
            *v == self.values()[i as int],
            *v == self@[self.keys()[i as int]],
    {
        proof {
            use_type_invariant(&*self);
            self.lemma_view_at(i as int);
        }
        &self.values[i]
    }

    /// The value of the `i`-th key, to change it in place.
    pub fn value_at_mut(&mut self, i: usize) -> (v: &mut V)
        requires
            i < old(self).keys().len(),
        ensures
            *v == old(self).values()[i as int],
            final(self).keys() == old(self).keys(),
            final(self).values() == old(self).values().update(i as int, *final(v)),
            final(self)@ == old(self)@.insert(old(self).keys()[i as int], *final(v)),
    {
        proof {
            use_type_invariant(&*self);
            let keys = self.keys();
            let values = self.values();
            let before = self@;
            lemma_index_of_unique(keys, i as int);
            assert(keys.contains(keys[i as int]));
            assert forall|value: V|
                #![trigger values.update(i as int, value)]
                Map::new(
                    |a: Address| keys.contains(a),
                    |a: Address| values.update(i as int, value)[keys.index_of(a)],
                ) =~= before.insert(keys[i as int], value) by {}
        }
        &mut self.values[i]
    }

    pub fn get(&self, address: Address) -> (v: Option<&V>)
        ensures
            match v {
                Some(v) => self@.contains_key(address) && *v == self@[address],
                None => !self@.contains_key(address),
            },
    {
        proof {
            use_type_invariant(&*self);
        }
        match self.find(address) {
            Some(i) => Some(&self.values[i]),
            None => None,
        }
    }

    /// Stores `value` under `address`. A key that was there keeps its place;
    /// a new one goes to the end. Returns the value that was replaced.
    pub fn insert(&mut self, address: Address, value: V) -> (prior: Option<V>)
        ensures
            final(self)@ == old(self)@.insert(address, value),
            prior == if old(self)@.contains_key(address) {
                Some(old(self)@[address])
            } else {
                None
            },
            final(self).keys() == if old(self)@.contains_key(address) {
                old(self).keys()
            } else {
                old(self).keys().push(address)
            },
            final(self).values() == if old(self)@.contains_key(address) {
                old(self).values().update(old(self).keys().index_of(address), value)
            } else {
                old(self).values().push(value)
            },
    {
        proof {
            use_type_invariant(&*self);
        }
        let ghost before = *self;
        let found = self.find(address);
        let mut taken = AddressMap::new();
        core::mem::swap(self, &mut taken);
        let AddressMap { keys: mut keys, values: mut values } = taken;
        let prior = match found {
            Some(i) => {
                values.push(value);
                let prior = values.swap_remove(i);
                proof {
                    assert(values@ =~= before.values().update(i as int, value));
                }
                Some(prior)
            },
            None => {
                keys.push(address);
                values.push(value);
                None
            },
        };
        *self = AddressMap { keys, values };
        proof {
            if found.is_some() {
                let i = found.unwrap() as int;
                assert forall|a: Address| #[trigger] self@.contains_key(a) implies self@[a]
                    == before@.insert(address, value)[a] by {
                    let j = self.keys().index_of(a);
                    assert(self.keys().contains(a));
                    if a == address {
                        assert(j == i);
                    }
                }
            } else {
                let n = before.keys().len() as int;
                assert forall|a: Address| before.keys().contains(a) implies self.keys().contains(
                    a,
                ) && self.keys().index_of(a) == before.keys().index_of(a) by {
                    let j = before.keys().index_of(a);
                    assert(self.keys()[j] == a);
                    lemma_index_of_unique(self.keys(), j);
                }
                assert(self.keys()[n] == address);
                lemma_index_of_unique(self.keys(), n);
                assert forall|a: Address| self.keys().contains(a) implies a == address
                    || before.keys().contains(a) by {
                    let j = self.keys().index_of(a);
                    if j < n {
                        assert(before.keys()[j] == a);
                    }
                }
            }
            assert(self@ =~= before@.insert(address, value));
        }
        prior
    }

    /// Takes `address` out of the map. The keys after it move up by one place.
    pub fn remove(&mut self, address: Address) -> (prior: Option<V>)
        ensures
            final(self)@ == old(self)@.remove(address),
            prior == if old(self)@.contains_key(address) {
                Some(old(self)@[address])
            } else {
                None
            },
            final(self).keys() == if old(self)@.contains_key(address) {
                old(self).keys().remove(old(self).keys().index_of(address))
            } else {
                old(self).keys()
            },
            final(self).values() == if old(self)@.contains_key(address) {
                old(self).values().remove(old(self).keys().index_of(address))
            } else {
                old(self).values()
            },
    {
        proof {
            use_type_invariant(&*self);
        }
        let ghost before = *self;
        match self.find(address) {
            Some(i) => {
                let mut taken = AddressMap::new();
                core::mem::swap(self, &mut taken);
                let AddressMap { keys: mut keys, values: mut values } = taken;
                let _ = keys.remove(i);
                let prior = values.remove(i);
                proof {
                    let at = i as int;
                    assert forall|j: int, k: int|
                        0 <= j < keys@.len() && 0 <= k < keys@.len() && j != k implies keys@[j]
                        != keys@[k] by {
                        let jj = if j < at { j } else { j + 1 };
                        let kk = if k < at { k } else { k + 1 };
                        assert(keys@[j] == before.keys()[jj]);
                        assert(keys@[k] == before.keys()[kk]);
                    }
                }
                *self = AddressMap { keys, values };
                proof {
                    let at = i as int;
                    assert forall|a: Address| a != address && before.keys().contains(a) implies self.keys().contains(
                        a,
                    ) && self.values()[self.keys().index_of(a)] == before.values()[before.keys().index_of(
                        a,
                    )] by {
                        let j = before.keys().index_of(a);
                        let jj = if j < at { j } else { j - 1 };
                        assert(self.keys()[jj] == a);
                        lemma_index_of_unique(self.keys(), jj);
                    }
                    assert forall|a: Address| self.keys().contains(a) implies a != address
                        && before.keys().contains(a) by {
                        let j = self.keys().index_of(a);
                        let jj = if j < at { j } else { j + 1 };
                        assert(before.keys()[jj] == a);
                    }
                    assert(self@ =~= before@.remove(address));
                }
                Some(prior)
            },
            None => {
                proof {
                    assert(self@ =~= before@.remove(address));
                }
                None
            },
        }
    }
}

impl<V: Copy> AddressMap<V> {
    /// A second map with the same keys, in the same order, and the same values.
    pub fn duplicate(&self) -> (m: Self)
        ensures
            m.keys() == self.keys(),
            m.values() == self.values(),
            m@ == self@,
    {
        proof {
            use_type_invariant(&*self);
        }
        let mut keys: Vec<Address> = Vec::new();
        let mut values: Vec<V> = Vec::new();
        let mut i: usize = 0;
        while i < self.keys.len()
            invariant
                self.wf(),
                i <= self.keys@.len(),
                keys@ == self.keys@.take(i as int),
                values@ == self.values@.take(i as int),
            decreases self.keys@.len() - i,
        {
            keys.push(self.keys[i]);
            values.push(self.values[i]);
            i += 1;
            proof {
                assert(keys@ =~= self.keys@.take(i as int));
                assert(values@ =~= self.values@.take(i as int));
            }
        }
        proof {
            assert(keys@ =~= self.keys@);
            assert(values@ =~= self.values@);
        }
        let m = AddressMap { keys, values };
        proof {
            m.lemma_same_entries(self);
        }
        m
    }
}

impl<V: Copy> AddressMap<V> {
    /// Stores every entry of `other`; where both maps have a key, the value
    /// of `other` replaces the one that was there.
    pub fn extend(&mut self, other: &AddressMap<V>)
        ensures
            final(self)@ == old(self)@.union_prefer_right(other@),
    {
        let ghost before = self@;
        other.in_step();
        let n = other.len();
        let mut i: usize = 0;
        while i < n
            invariant
                i <= n,
                n == other.keys().len(),
                other.wf(),
                forall|a: Address|
                    #![trigger self@.contains_key(a)]
                    self@.contains_key(a) <==> before.contains_key(a) || other.keys().take(
                        i as int,
                    ).contains(a),
                forall|a: Address|
                    #![trigger self@[a]]
                    self@.contains_key(a) ==> self@[a] == if other.keys().take(i as int).contains(a) {
                        other@[a]
                    } else {
                        before[a]
                    },
            decreases n - i,
        {
            let key = other.key_at(i);
            let value = *other.value_at(i);
            let ghost mid = self@;
            let _ = self.insert(key, value);
            proof {
                let taken = other.keys().take(i as int);
                let next = other.keys().take(i + 1);
                assert(next =~= taken.push(key));
                assert forall|a: Address| next.contains(a) <==> taken.contains(a) || a == key by {
                    if taken.contains(a) {
                        let x = taken.index_of(a);
                        assert(next[x] == a);
                    }
                    if a == key {
                        assert(next[i as int] == a);
                    }
                    if next.contains(a) {
                        let x = next.index_of(a);
                        if x < i {
                            assert(taken[x] == a);
                        }
                    }
                }
                assert forall|a: Address|
                    #![trigger self@.contains_key(a)]
                    self@.contains_key(a) <==> before.contains_key(a) || next.contains(a) by {
                    assert(mid.contains_key(a) <==> before.contains_key(a) || taken.contains(a));
                }
                assert forall|a: Address|
                    #![trigger self@[a]]
                    self@.contains_key(a) implies self@[a] == if next.contains(a) {
                        other@[a]
                    } else {
                        before[a]
                    } by {
                    if a != key {
                        assert(mid.contains_key(a));
                        assert(self@[a] == mid[a]);
                    }
                }
            }
            i += 1;
        }
        proof {
            assert(other.keys().take(n as int) =~= other.keys());
            other.lemma_view_dom();
            assert(self@ =~= before.union_prefer_right(other@));
        }
    }
}

impl<V: Copy> Clone for AddressMap<V> {
    fn clone(&self) -> (m: Self)
        ensures
            m.keys() == self.keys(),
            m.values() == self.values(),
            m@ == self@,
    {
        self.duplicate()
    }
}

/// A finite set of addresses.
#[derive(Debug, PartialEq, Eq)]
pub struct AddressSet {
    members: Vec<Address>,
}

impl AddressSet {
    /// The members, in the order in which they were first inserted.
    pub closed spec fn members(&self) -> Seq<Address> {
        self.members@
    }

    /// No address occurs twice. This holds of every set.
    #[verifier::type_invariant]
    pub open spec fn wf(&self) -> bool {
        self.members().no_duplicates()
    }

    /// The set as a mathematical set.
    pub open spec fn view(&self) -> Set<Address> {
        self.members().to_set()
    }

    /// Whether the members stand in step with the set: none comes twice,
    /// and there are as many as the set has elements. This holds of every
    /// set.
    pub open spec fn counted(&self) -> bool {
        &&& self.members().no_duplicates()
        &&& self@.finite()
        &&& self@.len() == self.members().len()
    }

    /// The members of a set stand in step with it: see
    /// [`AddressSet::counted`].
    pub fn in_step(&self)
        ensures
            self.counted(),
    {
        proof {
            use_type_invariant(&*self);
            self.members().unique_seq_to_set();
        }
    }

    pub fn new() -> (s: Self)
        ensures
            s@ == Set::<Address>::empty(),
            s.members() == Seq::<Address>::empty(),
    {
        let s = AddressSet { members: Vec::new() };
        assert(s@ =~= Set::<Address>::empty());
        s
    }

    pub fn len(&self) -> (n: usize)
        ensures
            n == self.members().len(),
            n == self@.len(),
    {
        proof {
            use_type_invariant(&*self);
        }
        proof {
            if self.wf() {
                self.members().unique_seq_to_set();
            }
        }
        self.members.len()
    }

    pub fn is_empty(&self) -> (b: bool)
        ensures
            b == (self@ == Set::<Address>::empty()),
            b == (self.members().len() == 0),
    {
        proof {
            use_type_invariant(&*self);
        }
        let b = self.members.len() == 0;
        proof {
            if b {
                assert(self@ =~= Set::<Address>::empty());
            } else {
                assert(self.members().contains(self.members()[0]));
                assert(self@.contains(self.members()[0]));
            }
        }
        b
    }

    /// The `i`-th member.
    pub fn member_at(&self, i: usize) -> (a: Address)
        requires
            i < self.members().len(),
        ensures
            a == self.members()[i as int],
            self@.contains(a),
    {
        proof {
            assert(self.members().contains(self.members()[i as int]));
        }
        self.members[i]
    }

    /// The position of `address` among the members.
    pub fn find(&self, address: Address) -> (at: Option<usize>)
        ensures
            match at {
                Some(i) => i < self.members().len() && self.members()[i as int] == address,
                None => !self.members().contains(address),
            },
            at.is_some() == self@.contains(address),
    {
        let mut i: usize = 0;
        while i < self.members.len()
            invariant
                i <= self.members@.len(),
                forall|j: int| 0 <= j < i ==> self.members@[j] != address,
            decreases self.members@.len() - i,
        {
            if self.members[i] == address {
                proof {
                    assert(self.members().contains(address));
                }
                return Some(i);
            }
            i += 1;
        }
        proof {
            assert(!self.members().contains(address));
        }
        None
    }

    pub fn contains(&self, address: Address) -> (b: bool)
        ensures
            b == self@.contains(address),
    {
        self.find(address).is_some()
    }

    /// A second set with the same members in the same order.
    pub fn duplicate(&self) -> (s: Self)
        ensures
            s.members() == self.members(),
            s@ == self@,
    {
        proof {
            use_type_invariant(&*self);
        }
        let mut members: Vec<Address> = Vec::new();
        let mut i: usize = 0;
        while i < self.members.len()
            invariant
                i <= self.members@.len(),
                members@ == self.members@.take(i as int),
            decreases self.members@.len() - i,
        {
            members.push(self.members[i]);
            i += 1;
            proof {
                assert(members@ =~= self.members@.take(i as int));
            }
        }
        proof {
            assert(members@ =~= self.members@);
        }
        AddressSet { members }
    }

    /// Adds `address`; returns whether it was new. A new member goes to the end.
    pub fn insert(&mut self, address: Address) -> (added: bool)
        ensures
            final(self)@ == old(self)@.insert(address),
            added == !old(self)@.contains(address),
            final(self).members() == if added {
                old(self).members().push(address)
            } else {
                old(self).members()
            },
    {
        proof {
            use_type_invariant(&*self);
        }
        if self.contains(address) {
            proof {
                assert(self@ =~= self@.insert(address));
            }
            false
        } else {
            let ghost before = *self;
            let mut members: Vec<Address> = Vec::new();
            core::mem::swap(&mut self.members, &mut members);
            members.push(address);
            proof {
                assert forall|j: int, k: int|
                    0 <= j < members@.len() && 0 <= k < members@.len() && j != k implies members@[j]
                    != members@[k] by {
                    if j < before.members().len() {
                        assert(before.members().contains(members@[j]));
                    }
                    if k < before.members().len() {
                        assert(before.members().contains(members@[k]));
                    }
                }
            }
            core::mem::swap(&mut self.members, &mut members);
            proof {
                assert forall|a: Address| self@.contains(a) == before@.insert(address).contains(
                    a,
                ) by {
                    if self.members().contains(a) {
                        let j = self.members().index_of(a);
                        if j < before.members().len() {
                            assert(before.members()[j] == a);
                            assert(before.members().contains(a));
                        }
                    }
                    if before.members().contains(a) {
                        let j = before.members().index_of(a);
                        assert(self.members()[j] == a);
                    }
                    if a == address {
                        assert(self.members()[before.members().len() as int] == a);
                    }
                }
                assert(self@ =~= before@.insert(address));
            }
            true
        }
    }

    /// Takes `address` out; returns whether it was a member.
    pub fn remove(&mut self, address: Address) -> (removed: bool)
        ensures
            final(self)@ == old(self)@.remove(address),
            removed == old(self)@.contains(address),
            final(self).members() == if removed {
                old(self).members().remove(old(self).members().index_of(address))
            } else {
                old(self).members()
            },
    {
        proof {
            use_type_invariant(&*self);
        }
        let ghost before = *self;
        match self.find(address) {
            Some(i) => {
                let mut members: Vec<Address> = Vec::new();
                core::mem::swap(&mut self.members, &mut members);
                let _ = members.remove(i);
                proof {
                    let at = i as int;
                    assert forall|j: int, k: int|
                        0 <= j < members@.len() && 0 <= k < members@.len() && j != k implies members@[j]
                        != members@[k] by {
                        let jj = if j < at { j } else { j + 1 };
                        let kk = if k < at { k } else { k + 1 };
                        assert(members@[j] == before.members()[jj]);
                        assert(members@[k] == before.members()[kk]);
                    }
                }
                core::mem::swap(&mut self.members, &mut members);
                proof {
                    let at = i as int;
                    lemma_index_of_unique(before.members(), at);
                    assert forall|j: int, k: int|
                        0 <= j < self.members().len() && 0 <= k < self.members().len() && j
                            != k implies self.members()[j] != self.members()[k] by {
                        let jj = if j < at { j } else { j + 1 };
                        let kk = if k < at { k } else { k + 1 };
                        assert(self.members()[j] == before.members()[jj]);
                        assert(self.members()[k] == before.members()[kk]);
                    }
                    assert forall|a: Address| self@.contains(a) == before@.remove(address).contains(
                        a,
                    ) by {
                        if self.members().contains(a) {
                            let j = self.members().index_of(a);
                            let jj = if j < at { j } else { j + 1 };
                            assert(before.members()[jj] == a);
                            assert(before.members().contains(a));
                        }
                        if before.members().contains(a) && a != address {
                            let j = before.members().index_of(a);
                            let jj = if j < at { j } else { j - 1 };
                            assert(self.members()[jj] == a);
                        }
                    }
                    assert(self@ =~= before@.remove(address));
                }
                true
            },
            None => {
                proof {
                    assert(self@ =~= before@.remove(address));
                }
                false
            },
        }
    }
}

impl Clone for AddressSet {
    fn clone(&self) -> (s: Self)
        ensures
            s.members() == self.members(),
            s@ == self@,
    {
        self.duplicate()
    }
}

} // verus!
