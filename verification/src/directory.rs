//! The directory: which managers there are, and under which names which
//! nodes are registered.
//!
//! Every manager keeps a directory of its own. The directories are merged
//! whenever one of them hears of another, and the merge is such that they all
//! arrive at the same state, in whatever order they hear of each other: an
//! entry that was ever deleted stays deleted, and of two versions of a node
//! the later stays. Two nodes that were registered under one name at the
//! same time both stay, until one of them is deleted.

use crate::actor::{Address, Context, Envelope, Version, VersionedAddress};
use crate::address_map::AddressMap;
use crate::expr::Name;
use crate::message::Message;
use vstd::prelude::*;

verus! {

/// What is known of the nodes of one name: the version of each that is
/// registered, and `None` for each that was deleted.
pub type Entries = Map<Address, Option<Version>>;

/// What is known of a node once two directories that know `mine` and
/// `theirs` of it have merged: a deletion absorbs everything, and of two
/// versions the later stays.
pub open spec fn merge_version(mine: Option<Version>, theirs: Option<Version>) -> Option<Version> {
    match (mine, theirs) {
        (Some(a), Some(b)) => if b.0 > a.0 {
            Some(b)
        } else {
            Some(a)
        },
        _ => None,
    }
}

/// The entries of one name once two directories have merged.
pub open spec fn merge_entries(mine: Entries, theirs: Entries) -> Entries {
    Map::new(
        |a: Address| mine.contains_key(a) || theirs.contains_key(a),
        |a: Address|
            if mine.contains_key(a) && theirs.contains_key(a) {
                merge_version(mine[a], theirs[a])
            } else if mine.contains_key(a) {
                mine[a]
            } else {
                theirs[a]
            },
    )
}

/// All names with their entries once two directories have merged.
pub open spec fn merge_nodes(
    mine: Map<Seq<char>, Entries>,
    theirs: Map<Seq<char>, Entries>,
) -> Map<Seq<char>, Entries> {
    Map::new(
        |n: Seq<char>| mine.contains_key(n) || theirs.contains_key(n),
        |n: Seq<char>|
            if mine.contains_key(n) && theirs.contains_key(n) {
                merge_entries(mine[n], theirs[n])
            } else if mine.contains_key(n) {
                mine[n]
            } else {
                theirs[n]
            },
    )
}

/// The managers, each with the mark of its deletion, once two directories
/// have merged: a manager that either directory has marked stays marked.
pub open spec fn merge_managers(mine: Map<Address, bool>, theirs: Map<Address, bool>) -> Map<
    Address,
    bool,
> {
    Map::new(
        |a: Address| mine.contains_key(a) || theirs.contains_key(a),
        |a: Address|
            if mine.contains_key(a) && theirs.contains_key(a) {
                mine[a] || theirs[a]
            } else if mine.contains_key(a) {
                mine[a]
            } else {
                theirs[a]
            },
    )
}

/// The mathematical content of a [`DirectoryState`].
pub struct DirectoryStateView {
    pub managers: Map<Address, bool>,
    pub nodes: Map<Seq<char>, Entries>,
}

impl DirectoryStateView {
    /// The state of two directories that have merged.
    pub open spec fn merge(self, other: DirectoryStateView) -> DirectoryStateView {
        DirectoryStateView {
            managers: merge_managers(self.managers, other.managers),
            nodes: merge_nodes(self.nodes, other.nodes),
        }
    }
}

/// Merging does not depend on who hears of whom.
pub proof fn lemma_merge_commutative(a: DirectoryStateView, b: DirectoryStateView)
    ensures
        a.merge(b) == b.merge(a),
{
    assert(merge_managers(a.managers, b.managers) =~= merge_managers(b.managers, a.managers));
    assert forall|n: Seq<char>| a.nodes.contains_key(n) && b.nodes.contains_key(n) implies #[trigger]
        merge_entries(a.nodes[n], b.nodes[n]) == merge_entries(b.nodes[n], a.nodes[n]) by {
        assert(merge_entries(a.nodes[n], b.nodes[n]) =~= merge_entries(b.nodes[n], a.nodes[n]));
    }
    assert(merge_nodes(a.nodes, b.nodes) =~= merge_nodes(b.nodes, a.nodes));
}

/// Merging a state with itself changes nothing.
pub proof fn lemma_merge_idempotent(a: DirectoryStateView)
    ensures
        a.merge(a) == a,
{
    assert(merge_managers(a.managers, a.managers) =~= a.managers);
    assert forall|n: Seq<char>| a.nodes.contains_key(n) implies #[trigger] merge_entries(
        a.nodes[n],
        a.nodes[n],
    ) == a.nodes[n] by {
        assert(merge_entries(a.nodes[n], a.nodes[n]) =~= a.nodes[n]);
    }
    assert(merge_nodes(a.nodes, a.nodes) =~= a.nodes);
}

/// Merging three states does not depend on the order in which they meet.
pub proof fn lemma_merge_associative(
    a: DirectoryStateView,
    b: DirectoryStateView,
    c: DirectoryStateView,
)
    ensures
        a.merge(b).merge(c) == a.merge(b.merge(c)),
{
    assert(merge_managers(merge_managers(a.managers, b.managers), c.managers) =~= merge_managers(
        a.managers,
        merge_managers(b.managers, c.managers),
    ));
    let left = merge_nodes(merge_nodes(a.nodes, b.nodes), c.nodes);
    let right = merge_nodes(a.nodes, merge_nodes(b.nodes, c.nodes));
    assert forall|n: Seq<char>| left.contains_key(n) implies #[trigger] left[n] == right[n] by {
        let x = a.nodes[n];
        let y = b.nodes[n];
        let z = c.nodes[n];
        if a.nodes.contains_key(n) && b.nodes.contains_key(n) && c.nodes.contains_key(n) {
            assert(merge_entries(merge_entries(x, y), z) =~= merge_entries(x, merge_entries(y, z)));
        }
    }
    assert(left =~= right);
}

/// The nodes of the directory, by name.
#[derive(Debug, PartialEq, Eq)]
pub struct NameTable {
    names: Vec<Name>,
    tables: Vec<AddressMap<Option<Version>>>,
}

impl NameTable {
    /// The names, in the order in which they were first registered.
    pub closed spec fn names(&self) -> Seq<Seq<char>> {
        Seq::new(self.names@.len(), |i: int| self.names@[i]@)
    }

    /// The entries of each name; `tables()[i]` belongs to `names()[i]`.
    pub closed spec fn tables(&self) -> Seq<Entries> {
        Seq::new(self.tables@.len(), |i: int| self.tables@[i]@)
    }

    /// Every name has its entries, and no name occurs twice. This holds of
    /// every table.
    #[verifier::type_invariant]
    pub closed spec fn wf(&self) -> bool {
        &&& self.names@.len() == self.tables@.len()
        &&& forall|i: int, j: int|
            0 <= i < j < self.names@.len() ==> (#[trigger] self.names@[i])@ != (
            #[trigger] self.names@[j])@
    }

    /// The table as a mathematical map from names to entries.
    pub closed spec fn view(&self) -> Map<Seq<char>, Entries> {
        Map::new(
            |n: Seq<char>| self.names().contains(n),
            |n: Seq<char>| self.tables()[self.names().index_of(n)],
        )
    }

    /// The names of a table are all different, each has its entries, and the
    /// view maps each to them.
    pub fn in_step(&self)
        ensures
            self.names().len() == self.tables().len(),
            self.names().no_duplicates(),
            forall|i: int|
                0 <= i < self.names().len() ==> self@.contains_key(#[trigger] self.names()[i])
                    && self@[self.names()[i]] == self.tables()[i] && self.names().index_of(
                    self.names()[i],
                ) == i,
            forall|n: Seq<char>| #[trigger] self@.contains_key(n) <==> self.names().contains(n),
    {
        proof {
            use_type_invariant(&*self);
            assert forall|i: int|
                0 <= i < self.names().len() implies self@.contains_key(#[trigger] self.names()[i])
                && self@[self.names()[i]] == self.tables()[i] && self.names().index_of(
                self.names()[i],
            ) == i by {
                crate::address_map::lemma_index_of_unique(self.names(), i);
                assert(self.names().contains(self.names()[i]));
            }
        }
    }

    pub fn new() -> (table: Self)
        ensures
            table@ == Map::<Seq<char>, Entries>::empty(),
            table.names() == Seq::<Seq<char>>::empty(),
            table.tables() == Seq::<Entries>::empty(),
    {
        let table = NameTable { names: Vec::new(), tables: Vec::new() };
        proof {
            assert(table.names() =~= Seq::<Seq<char>>::empty());
            assert(table.tables() =~= Seq::<Entries>::empty());
            assert(table@ =~= Map::<Seq<char>, Entries>::empty());
        }
        table
    }

    pub fn len(&self) -> (n: usize)
        ensures
            n == self.names().len(),
            n == self.tables().len(),
    {
        proof {
            use_type_invariant(&*self);
        }
        self.names.len()
    }

    /// The place of `name` among the names.
    pub fn find(&self, name: &Name) -> (at: Option<usize>)
        ensures
            match at {
                Some(i) => i < self.names().len() && self.names()[i as int] == name@
                    && self.names().index_of(name@) == i,
                None => !self.names().contains(name@),
            },
            at.is_some() == self@.contains_key(name@),
    {
        self.in_step();
        let mut i: usize = 0;
        while i < self.names.len()
            invariant
                i <= self.names@.len(),
                self.names().len() == self.names@.len(),
                self.names().no_duplicates(),
                forall|n: Seq<char>| #[trigger] self@.contains_key(n) <==> self.names().contains(n),
                forall|j: int| 0 <= j < i ==> self.names()[j] != name@,
            decreases self.names@.len() - i,
        {
            if self.names[i].same(name) {
                proof {
                    assert(self.names()[i as int] == name@);
                    crate::address_map::lemma_index_of_unique(self.names(), i as int);
                    assert(self.names().contains(name@));
                }
                return Some(i);
            }
            i += 1;
        }
        None
    }

    /// The `i`-th name.
    pub fn name_at(&self, i: usize) -> (name: &Name)
        requires
            i < self.names().len(),
        ensures
            name@ == self.names()[i as int],
    {
        &self.names[i]
    }

    /// The entries of the `i`-th name.
    pub fn table_at(&self, i: usize) -> (table: &AddressMap<Option<Version>>)
        requires
            i < self.names().len(),
        ensures
            table@ == self.tables()[i as int],
    {
        proof {
            use_type_invariant(&*self);
        }
        &self.tables[i]
    }

    /// The entries of the `i`-th name, to change them.
    pub fn table_at_mut(&mut self, i: usize) -> (table: &mut AddressMap<Option<Version>>)
        requires
            i < old(self).names().len(),
        ensures
            table@ == old(self).tables()[i as int],
            final(self).names() == old(self).names(),
            final(self).tables() == old(self).tables().update(i as int, final(table)@),
            final(self)@ == old(self)@.insert(old(self).names()[i as int], final(table)@),
    {
        self.in_step();
        proof {
            use_type_invariant(&*self);
            let names = self.names();
            let tables = self.tables();
            let before = self@;
            assert forall|t: Entries|
                #![trigger tables.update(i as int, t)]
                Map::new(
                    |n: Seq<char>| names.contains(n),
                    |n: Seq<char>| tables.update(i as int, t)[names.index_of(n)],
                ) =~= before.insert(names[i as int], t) by {
                assert(names.contains(names[i as int]));
            }
            assert forall|t: AddressMap<Option<Version>>|
                #![trigger self.tables@.update(i as int, t)]
                Seq::new(
                    self.tables@.update(i as int, t).len(),
                    |k: int| self.tables@.update(i as int, t)[k]@,
                ) =~= self.tables().update(i as int, t@) by {}
        }
        &mut self.tables[i]
    }

    /// The entries of `name`.
    pub fn get(&self, name: &Name) -> (table: Option<&AddressMap<Option<Version>>>)
        ensures
            match table {
                Some(t) => self@.contains_key(name@) && t@ == self@[name@],
                None => !self@.contains_key(name@),
            },
    {
        self.in_step();
        match self.find(name) {
            Some(i) => Some(self.table_at(i)),
            None => None,
        }
    }

    /// The addresses that have an entry under `name`, in the order in which
    /// they were first entered.
    pub closed spec fn tables_keys(&self, name: Seq<char>) -> Seq<Address> {
        self.tables@[self.names().index_of(name)].keys()
    }

    /// The entries of `name`, with their order.
    pub fn get_with_keys(&self, name: &Name) -> (table: Option<&AddressMap<Option<Version>>>)
        ensures
            match table {
                Some(t) => self@.contains_key(name@) && t@ == self@[name@] && t.keys()
                    == self.tables_keys(name@),
                None => !self@.contains_key(name@),
            },
    {
        self.in_step();
        proof {
            use_type_invariant(&*self);
        }
        match self.find(name) {
            Some(i) => Some(&self.tables[i]),
            None => None,
        }
    }

    /// Registers `name`, which is not yet there, with the entries `table`.
    pub fn insert_new(&mut self, name: Name, table: AddressMap<Option<Version>>)
        requires
            !old(self)@.contains_key(name@),
        ensures
            final(self)@ == old(self)@.insert(name@, table@),
            final(self).names() == old(self).names().push(name@),
            final(self).tables() == old(self).tables().push(table@),
    {
        self.in_step();
        let ghost before = *self;
        let mut taken = NameTable::new();
        core::mem::swap(self, &mut taken);
        let NameTable { names: mut names, tables: mut tables } = taken;
        names.push(name);
        tables.push(table);
        proof {
            assert forall|i: int, j: int| 0 <= i < j < names@.len() implies (#[trigger] names@[i])@
                != (#[trigger] names@[j])@ by {
                if j == names@.len() - 1 {
                    assert(before.names()[i] == names@[i]@);
                    assert(before.names().contains(names@[i]@));
                } else {
                    assert(before.names()[i] != before.names()[j]);
                }
            }
        }
        *self = NameTable { names, tables };
        self.in_step();
        proof {
            assert(self.names() =~= before.names().push(name@));
            assert(self.tables() =~= before.tables().push(table@));
            let n = before.names().len() as int;
            assert forall|m: Seq<char>| before.names().contains(m) implies self.names().contains(m)
                && self.names().index_of(m) == before.names().index_of(m) by {
                let j = before.names().index_of(m);
                assert(self.names()[j] == m);
                crate::address_map::lemma_index_of_unique(self.names(), j);
            }
            assert forall|m: Seq<char>| self.names().contains(m) implies m == name@
                || before.names().contains(m) by {
                let j = self.names().index_of(m);
                if j < n {
                    assert(before.names()[j] == m);
                }
            }
            assert(self.names()[n] == name@);
            crate::address_map::lemma_index_of_unique(self.names(), n);
            assert(self@ =~= before@.insert(name@, table@));
        }
    }

    /// A second table with the same names, in the same order, and the same
    /// entries.
    pub fn duplicate(&self) -> (copy: Self)
        ensures
            copy@ == self@,
            copy.names() == self.names(),
            copy.tables() == self.tables(),
    {
        self.in_step();
        let mut copy = NameTable::new();
        let n = self.len();
        let mut i: usize = 0;
        while i < n
            invariant
                i <= n,
                n == self.names().len(),
                n == self.tables().len(),
                self.names().no_duplicates(),
                copy.names() == self.names().take(i as int),
                copy.tables() == self.tables().take(i as int),
            decreases n - i,
        {
            copy.in_step();
            proof {
                if copy@.contains_key(self.names()[i as int]) {
                    let j = copy.names().index_of(self.names()[i as int]);
                    assert(self.names()[j] == self.names()[i as int]);
                }
            }
            copy.insert_new(self.name_at(i).clone(), self.table_at(i).duplicate());
            i += 1;
            proof {
                assert(copy.names() =~= self.names().take(i as int));
                assert(copy.tables() =~= self.tables().take(i as int));
            }
        }
        proof {
            assert(copy.names() =~= self.names());
            assert(copy.tables() =~= self.tables());
            assert(copy@ =~= self@);
        }
        copy
    }
}

impl Clone for NameTable {
    fn clone(&self) -> (copy: Self)
        ensures
            copy@ == self@,
    {
        self.duplicate()
    }
}

/// What one directory knows, and tells the others.
#[derive(Debug, PartialEq, Eq)]
pub struct DirectoryState {
    /// The managers; `true` marks one that was deleted.
    pub managers: AddressMap<bool>,
    /// The nodes, by name.
    pub nodes: NameTable,
}

impl DirectoryState {
    /// The state as mathematics.
    pub open spec fn view(&self) -> DirectoryStateView {
        DirectoryStateView { managers: self.managers@, nodes: self.nodes@ }
    }
}

impl Clone for DirectoryState {
    fn clone(&self) -> (copy: Self)
        ensures
            copy@ == self@,
            copy.managers.keys() == self.managers.keys(),
    {
        DirectoryState { managers: self.managers.duplicate(), nodes: self.nodes.duplicate() }
    }
}

/// Whether `mine` differs from `before`, given that it has all the keys of
/// `before`.
pub open spec fn differs<V>(mine: Map<Address, V>, before: Map<Address, V>) -> bool {
    exists|a: Address|
        #![trigger mine.contains_key(a)]
        mine.contains_key(a) && (!before.contains_key(a) || mine[a] != before[a])
}

/// Merges what `theirs` knows of the managers into `mine`. Returns whether
/// `mine` has changed.
pub fn merge_managers_into(mine: &mut AddressMap<bool>, theirs: &AddressMap<bool>) -> (changed: bool)
    ensures
        final(mine)@ == merge_managers(old(mine)@, theirs@),
        changed == (final(mine)@ != old(mine)@),
{
    let ghost before = mine@;
    theirs.in_step();
    proof {
        theirs.lemma_view_dom();
    }
    let mut changed = false;
    let n = theirs.len();
    let mut i: usize = 0;
    while i < n
        invariant
            i <= n,
            n == theirs.keys().len(),
            theirs.wf(),
            forall|a: Address| #[trigger] theirs@.contains_key(a) <==> theirs.keys().contains(a),
            forall|a: Address|
                #![trigger mine@.contains_key(a)]
                mine@.contains_key(a) <==> before.contains_key(a) || theirs.keys().take(
                    i as int,
                ).contains(a),
            forall|a: Address|
                #![trigger mine@[a]]
                mine@.contains_key(a) ==> mine@[a] == if before.contains_key(a)
                    && theirs.keys().take(i as int).contains(a) {
                    before[a] || theirs@[a]
                } else if before.contains_key(a) {
                    before[a]
                } else {
                    theirs@[a]
                },
            changed == differs(mine@, before),
        decreases n - i,
    {
        let key = theirs.key_at(i);
        let deleted = *theirs.value_at(i);
        let ghost mid = mine@;
        let ghost taken = theirs.keys().take(i as int);
        let ghost next = theirs.keys().take(i + 1);
        proof {
            assert(next =~= taken.push(key));
            assert(!taken.contains(key)) by {
                if taken.contains(key) {
                    let x = taken.index_of(key);
                    assert(theirs.keys()[x] == theirs.keys()[i as int]);
                }
            }
            assert forall|a: Address| next.contains(a) <==> taken.contains(a) || a == key by {
                if taken.contains(a) {
                    let x = taken.index_of(a);
                    assert(next[x] == a);
                }
                if a == key {
                    assert(next[i as int] == a);
                }
                if next.contains(a) {
                    let x = next.index_of(a);
                    if x < i {
                        assert(taken[x] == a);
                    }
                }
            }
        }
        let change = match mine.get(key) {
            None => true,
            Some(local) => deleted && !*local,
        };
        if change {
            let _ = mine.insert(key, deleted);
            changed = true;
        }
        proof {
            assert forall|a: Address|
                #![trigger mine@.contains_key(a)]
                mine@.contains_key(a) <==> before.contains_key(a) || next.contains(a) by {
                assert(mid.contains_key(a) <==> before.contains_key(a) || taken.contains(a));
            }
            assert forall|a: Address|
                #![trigger mine@[a]]
                mine@.contains_key(a) implies mine@[a] == if before.contains_key(a)
                    && next.contains(a) {
                    before[a] || theirs@[a]
                } else if before.contains_key(a) {
                    before[a]
                } else {
                    theirs@[a]
                } by {
                if a != key {
                    assert(mid.contains_key(a));
                    assert(mine@[a] == mid[a]);
                } else if mid.contains_key(a) {
                    assert(mid[a] == before[a]);
                }
            }
            if change {
                assert(mine@.contains_key(key) && (!before.contains_key(key) || mine@[key]
                    != before[key])) by {
                    if mid.contains_key(key) {
                        assert(mid[key] == before[key]);
                    }
                }
            } else if differs(mid, before) {
                let a = choose|a: Address|
                    #![trigger mid.contains_key(a)]
                    mid.contains_key(a) && (!before.contains_key(a) || mid[a] != before[a]);
                assert(mine@.contains_key(a));
            }
            if differs(mine@, before) && !change {
                let a = choose|a: Address|
                    #![trigger mine@.contains_key(a)]
                    mine@.contains_key(a) && (!before.contains_key(a) || mine@[a] != before[a]);
                assert(mid.contains_key(a));
            }
            if differs(mid, before) && change {
                let a = choose|a: Address|
                    #![trigger mid.contains_key(a)]
                    mid.contains_key(a) && (!before.contains_key(a) || mid[a] != before[a]);
                assert(mine@.contains_key(a));
            }
        }
        i += 1;
    }
    proof {
        assert(theirs.keys().take(n as int) =~= theirs.keys());
        assert(mine@ =~= merge_managers(before, theirs@));
        if !changed {
            assert forall|a: Address| mine@.contains_key(a) implies before.contains_key(a)
                && mine@[a] == before[a] by {}
            assert(mine@ =~= before);
        } else {
            let a = choose|a: Address|
                #![trigger mine@.contains_key(a)]
                mine@.contains_key(a) && (!before.contains_key(a) || mine@[a] != before[a]);
        }
    }
    changed
}

/// Whether `mine` differs from `before`, given that it has all the names of
/// `before`.
pub open spec fn names_differ(
    mine: Map<Seq<char>, Entries>,
    before: Map<Seq<char>, Entries>,
) -> bool {
    exists|n: Seq<char>|
        #![trigger mine.contains_key(n)]
        mine.contains_key(n) && (!before.contains_key(n) || mine[n] != before[n])
}

/// Merges what `theirs` knows of the nodes into `mine`. Returns whether
/// `mine` has changed.
pub fn merge_nodes_into(mine: &mut NameTable, theirs: &NameTable) -> (changed: bool)
    ensures
        final(mine)@ == merge_nodes(old(mine)@, theirs@),
        changed == (final(mine)@ != old(mine)@),
{
    let ghost before = mine@;
    theirs.in_step();
    let mut changed = false;
    let n = theirs.len();
    let mut i: usize = 0;
    while i < n
        invariant
            i <= n,
            n == theirs.names().len(),
            n == theirs.tables().len(),
            theirs.names().no_duplicates(),
            forall|k: int|
                0 <= k < theirs.names().len() ==> theirs@.contains_key(#[trigger] theirs.names()[k])
                    && theirs@[theirs.names()[k]] == theirs.tables()[k],
            forall|m: Seq<char>| #[trigger] theirs@.contains_key(m) <==> theirs.names().contains(m),
            forall|m: Seq<char>|
                #![trigger mine@.contains_key(m)]
                mine@.contains_key(m) <==> before.contains_key(m) || theirs.names().take(
                    i as int,
                ).contains(m),
            forall|m: Seq<char>|
                #![trigger mine@[m]]
                mine@.contains_key(m) ==> mine@[m] == if before.contains_key(m)
                    && theirs.names().take(i as int).contains(m) {
                    merge_entries(before[m], theirs@[m])
                } else if before.contains_key(m) {
                    before[m]
                } else {
                    theirs@[m]
                },
            changed == names_differ(mine@, before),
        decreases n - i,
    {
        let name = theirs.name_at(i);
        let entries = theirs.table_at(i);
        let ghost key = name@;
        let ghost mid = mine@;
        let ghost taken = theirs.names().take(i as int);
        let ghost next = theirs.names().take(i + 1);
        proof {
            assert(next =~= taken.push(key));
            assert(!taken.contains(key)) by {
                if taken.contains(key) {
                    let x = taken.index_of(key);
                    assert(theirs.names()[x] == theirs.names()[i as int]);
                }
            }
            assert forall|m: Seq<char>| next.contains(m) <==> taken.contains(m) || m == key by {
                if taken.contains(m) {
                    let x = taken.index_of(m);
                    assert(next[x] == m);
                }
                if m == key {
                    assert(next[i as int] == m);
                }
                if next.contains(m) {
                    let x = next.index_of(m);
                    if x < i {
                        assert(taken[x] == m);
                    }
                }
            }
            assert(theirs@[key] == entries@);
        }
        let change = match mine.find(name) {
            None => {
                mine.insert_new(name.clone(), entries.duplicate());
                true
            },
            Some(k) => {
                let table = mine.table_at_mut(k);
                merge_entries_into(table, entries)
            },
        };
        if change {
            changed = true;
        }
        proof {
            assert forall|m: Seq<char>|
                #![trigger mine@.contains_key(m)]
                mine@.contains_key(m) <==> before.contains_key(m) || next.contains(m) by {
                assert(mid.contains_key(m) <==> before.contains_key(m) || taken.contains(m));
            }
            assert forall|m: Seq<char>|
                #![trigger mine@[m]]
                mine@.contains_key(m) implies mine@[m] == if before.contains_key(m)
                    && next.contains(m) {
                    merge_entries(before[m], theirs@[m])
                } else if before.contains_key(m) {
                    before[m]
                } else {
                    theirs@[m]
                } by {
                if m != key {
                    assert(mid.contains_key(m));
                    assert(mine@[m] == mid[m]);
                } else if mid.contains_key(m) {
                    assert(mid[m] == before[m]);
                }
            }
            if change {
                assert(mine@.contains_key(key) && (!before.contains_key(key) || mine@[key]
                    != before[key])) by {
                    if mid.contains_key(key) {
                        assert(mid[key] == before[key]);
                    }
                }
            } else if names_differ(mid, before) {
                let m = choose|m: Seq<char>|
                    #![trigger mid.contains_key(m)]
                    mid.contains_key(m) && (!before.contains_key(m) || mid[m] != before[m]);
                assert(mine@.contains_key(m));
                assert(mine@[m] == mid[m]);
            }
            if names_differ(mine@, before) && !change {
                let m = choose|m: Seq<char>|
                    #![trigger mine@.contains_key(m)]
                    mine@.contains_key(m) && (!before.contains_key(m) || mine@[m] != before[m]);
                assert(mid.contains_key(m));
                assert(mine@[m] == mid[m]);
            }
            if names_differ(mid, before) && change {
                let m = choose|m: Seq<char>|
                    #![trigger mid.contains_key(m)]
                    mid.contains_key(m) && (!before.contains_key(m) || mid[m] != before[m]);
                assert(mine@.contains_key(m));
                assert(m != key);
                assert(mine@[m] == mid[m]);
            }
        }
        i += 1;
    }
    proof {
        assert(theirs.names().take(n as int) =~= theirs.names());
        assert(mine@ =~= merge_nodes(before, theirs@));
        if !changed {
            assert forall|m: Seq<char>| mine@.contains_key(m) implies before.contains_key(m)
                && mine@[m] == before[m] by {}
            assert(mine@ =~= before);
        } else {
            let m = choose|m: Seq<char>|
                #![trigger mine@.contains_key(m)]
                mine@.contains_key(m) && (!before.contains_key(m) || mine@[m] != before[m]);
        }
    }
    changed
}

/// Merges what `theirs` knows of the nodes of one name into `mine`. Returns
/// whether `mine` has changed.
pub fn merge_entries_into(
    mine: &mut AddressMap<Option<Version>>,
    theirs: &AddressMap<Option<Version>>,
) -> (changed: bool)
    ensures
        final(mine)@ == merge_entries(old(mine)@, theirs@),
        changed == (final(mine)@ != old(mine)@),
{
    let ghost before = mine@;
    theirs.in_step();
    proof {
        theirs.lemma_view_dom();
    }
    let mut changed = false;
    let n = theirs.len();
    let mut i: usize = 0;
    while i < n
        invariant
            i <= n,
            n == theirs.keys().len(),
            theirs.wf(),
            forall|a: Address| #[trigger] theirs@.contains_key(a) <==> theirs.keys().contains(a),
            forall|a: Address|
                #![trigger mine@.contains_key(a)]
                mine@.contains_key(a) <==> before.contains_key(a) || theirs.keys().take(
                    i as int,
                ).contains(a),
            forall|a: Address|
                #![trigger mine@[a]]
                mine@.contains_key(a) ==> mine@[a] == if before.contains_key(a)
                    && theirs.keys().take(i as int).contains(a) {
                    merge_version(before[a], theirs@[a])
                } else if before.contains_key(a) {
                    before[a]
                } else {
                    theirs@[a]
                },
            changed == differs(mine@, before),
        decreases n - i,
    {
        let key = theirs.key_at(i);
        let version = *theirs.value_at(i);
        let ghost mid = mine@;
        let ghost taken = theirs.keys().take(i as int);
        let ghost next = theirs.keys().take(i + 1);
        proof {
            assert(next =~= taken.push(key));
            assert(!taken.contains(key)) by {
                if taken.contains(key) {
                    let x = taken.index_of(key);
                    assert(theirs.keys()[x] == theirs.keys()[i as int]);
                }
            }
            assert forall|a: Address| next.contains(a) <==> taken.contains(a) || a == key by {
                if taken.contains(a) {
                    let x = taken.index_of(a);
                    assert(next[x] == a);
                }
                if a == key {
                    assert(next[i as int] == a);
                }
                if next.contains(a) {
                    let x = next.index_of(a);
                    if x < i {
                        assert(taken[x] == a);
                    }
                }
            }
        }
        let change = match mine.get(key) {
            None => Some(version),
            Some(local) => match (local, version) {
                (None, _) => None,
                (Some(_), None) => Some(None),
                (Some(my), Some(their)) => if their.0 > my.0 {
                    Some(Some(their))
                } else {
                    None
                },
            },
        };
        let ghost change_made = change is Some;
        match change {
            Some(merged) => {
                let _ = mine.insert(key, merged);
                changed = true;
            },
            None => {},
        }
        proof {
            assert forall|a: Address|
                #![trigger mine@.contains_key(a)]
                mine@.contains_key(a) <==> before.contains_key(a) || next.contains(a) by {
                assert(mid.contains_key(a) <==> before.contains_key(a) || taken.contains(a));
            }
            assert forall|a: Address|
                #![trigger mine@[a]]
                mine@.contains_key(a) implies mine@[a] == if before.contains_key(a)
                    && next.contains(a) {
                    merge_version(before[a], theirs@[a])
                } else if before.contains_key(a) {
                    before[a]
                } else {
                    theirs@[a]
                } by {
                if a != key {
                    assert(mid.contains_key(a));
                    assert(mine@[a] == mid[a]);
                } else if mid.contains_key(a) {
                    assert(mid[a] == before[a]);
                }
            }
            if change_made {
                assert(mine@.contains_key(key) && (!before.contains_key(key) || mine@[key]
                    != before[key])) by {
                    if mid.contains_key(key) {
                        assert(mid[key] == before[key]);
                    }
                }
            } else if differs(mid, before) {
                let a = choose|a: Address|
                    #![trigger mid.contains_key(a)]
                    mid.contains_key(a) && (!before.contains_key(a) || mid[a] != before[a]);
                assert(mine@.contains_key(a));
            }
            if differs(mine@, before) && !change_made {
                let a = choose|a: Address|
                    #![trigger mine@.contains_key(a)]
                    mine@.contains_key(a) && (!before.contains_key(a) || mine@[a] != before[a]);
                assert(mid.contains_key(a));
            }
            if differs(mid, before) && change_made {
                let a = choose|a: Address|
                    #![trigger mid.contains_key(a)]
                    mid.contains_key(a) && (!before.contains_key(a) || mid[a] != before[a]);
                assert(mine@.contains_key(a));
            }
        }
        i += 1;
    }
    proof {
        assert(theirs.keys().take(n as int) =~= theirs.keys());
        assert(mine@ =~= merge_entries(before, theirs@));
        if !changed {
            assert forall|a: Address| mine@.contains_key(a) implies before.contains_key(a)
                && mine@[a] == before[a] by {}
            assert(mine@ =~= before);
        } else {
            let a = choose|a: Address|
                #![trigger mine@.contains_key(a)]
                mine@.contains_key(a) && (!before.contains_key(a) || mine@[a] != before[a]);
        }
    }
    changed
}

/// What became of a message that was handed to the directory.
#[derive(Debug, PartialEq, Eq)]
pub enum DirectoryEvent {
    /// The message is none of the directory's; here it is back.
    Unhandled(Message),
    /// The directory has merged the state that the message carried.
    UpdatedState,
}

/// The managers among `keys`, in order, that are not marked as deleted in
/// `marks` and are not `me`.
pub open spec fn live_peers(keys: Seq<Address>, marks: Map<Address, bool>, me: Address) -> Seq<
    Address,
>
    decreases keys.len(),
{
    if keys.len() == 0 {
        Seq::empty()
    } else {
        let earlier = live_peers(keys.drop_last(), marks, me);
        if !marks[keys.last()] && keys.last() != me {
            earlier.push(keys.last())
        } else {
            earlier
        }
    }
}

/// The nodes among `keys`, in order, that `entries` has registered, each
/// with its version.
pub open spec fn registered(keys: Seq<Address>, entries: Entries) -> Seq<VersionedAddress>
    decreases keys.len(),
{
    if keys.len() == 0 {
        Seq::empty()
    } else {
        let earlier = registered(keys.drop_last(), entries);
        match entries[keys.last()] {
            Some(version) => earlier.push(VersionedAddress { address: keys.last(), version }),
            None => earlier,
        }
    }
}

/// What a directory gives under a name are the nodes that have a live entry
/// there, each once: a node at a version is among `registered(keys,
/// entries)` exactly where its address is one of `keys` and `entries` holds
/// that version for it, and where no address comes twice among `keys` no node
/// comes twice among what is given.
pub proof fn lemma_registered_members(keys: Seq<Address>, entries: Entries, node: VersionedAddress)
    ensures
        registered(keys, entries).contains(node) <==> keys.contains(node.address)
            && entries[node.address] == Some(node.version),
        registered(keys, entries).len() <= keys.len(),
        keys.no_duplicates() ==> registered(keys, entries).no_duplicates(),
    decreases keys.len(),
{
    let given = registered(keys, entries);
    if keys.len() > 0 {
        let earlier = registered(keys.drop_last(), entries);
        let last = keys.last();
        lemma_registered_members(keys.drop_last(), entries, node);
        if earlier.contains(node) {
            let i = earlier.index_of(node);
            assert(given[i] == node);
            let k = keys.drop_last().index_of(node.address);
            assert(keys[k] == node.address);
        }
        if keys.contains(node.address) && entries[node.address] == Some(node.version) {
            let k = keys.index_of(node.address);
            if k < keys.len() - 1 {
                assert(keys.drop_last()[k] == node.address);
                let i = earlier.index_of(node);
                assert(given[i] == node);
            } else {
                assert(given.last() == node);
            }
        }
        if given.contains(node) {
            let i = given.index_of(node);
            if i < earlier.len() {
                assert(earlier[i] == node);
            } else {
                assert(keys[keys.len() - 1] == node.address);
            }
        }
        if keys.no_duplicates() {
            assert(keys.drop_last().no_duplicates());
            assert forall|i: int, j: int| 0 <= i < j < given.len() implies given[i] != given[j] by {
                if j < earlier.len() {
                    assert(earlier[i] != earlier[j]);
                } else {
                    let other = earlier[i];
                    lemma_registered_members(keys.drop_last(), entries, other);
                    assert(earlier.contains(other));
                    let k = keys.drop_last().index_of(other.address);
                    assert(keys[k] == other.address);
                    assert(k != keys.len() - 1);
                }
            }
        }
    }
}

/// Whether `envelope` tells the manager at `target` the state `state` of the
/// directory of the manager at `me`.
pub open spec fn is_state_update(
    envelope: Envelope,
    me: Address,
    target: Address,
    state: DirectoryStateView,
) -> bool {
    &&& envelope.sender == me
    &&& envelope.target == target
    &&& envelope.message matches Message::Directory { state: carried }
    &&& carried@ == state
}

/// The nodes once `node` is registered under `name`: the node is entered
/// under the name at its version, unless it is entered there already at that
/// version or a later one.
pub open spec fn with_node(nodes: Map<Seq<char>, Entries>, name: Seq<char>, node: VersionedAddress) -> Map<
    Seq<char>,
    Entries,
> {
    let entries = if nodes.contains_key(name) {
        nodes[name]
    } else {
        Map::empty()
    };
    if is_stale(nodes, name, node) {
        nodes
    } else {
        nodes.insert(name, entries.insert(node.address, Some(node.version)))
    }
}

/// Whether `node` is entered under `name` at its version or a later one.
pub open spec fn is_stale(nodes: Map<Seq<char>, Entries>, name: Seq<char>, node: VersionedAddress) -> bool {
    &&& nodes.contains_key(name)
    &&& nodes[name].contains_key(node.address)
    &&& nodes[name][node.address] matches Some(version)
    &&& version.0 >= node.version.0
}

/// Whether some name has `node` registered, at its version.
pub open spec fn has_node(nodes: Map<Seq<char>, Entries>, node: VersionedAddress) -> bool {
    exists|n: Seq<char>|
        #![trigger nodes.contains_key(n)]
        nodes.contains_key(n) && nodes[n].contains_key(node.address) && nodes[n][node.address]
            == Some(node.version)
}

/// The nodes with `node` deleted wherever it is registered at its version.
pub open spec fn without_node(nodes: Map<Seq<char>, Entries>, node: VersionedAddress) -> Map<
    Seq<char>,
    Entries,
> {
    Map::new(
        |n: Seq<char>| nodes.contains_key(n),
        |n: Seq<char>|
            if nodes[n].contains_key(node.address) && nodes[n][node.address] == Some(node.version) {
                nodes[n].insert(node.address, None)
            } else {
                nodes[n]
            },
    )
}

/// The directory of one manager.
#[derive(Debug, PartialEq, Eq)]
pub struct Directory {
    state: DirectoryState,
}

impl Directory {
    /// What the directory knows.
    pub closed spec fn state(&self) -> DirectoryStateView {
        self.state@
    }

    /// The managers, in the order in which the directory tells them its
    /// state.
    pub closed spec fn manager_order(&self) -> Seq<Address> {
        self.state.managers.keys()
    }

    /// The nodes that are registered under `name`, in the order in which
    /// [`Directory::get`] returns them.
    pub closed spec fn node_order(&self, name: Seq<char>) -> Seq<Address> {
        self.state.nodes.tables_keys(name)
    }

    /// Whether the nodes under `name` stand in step: no address comes twice
    /// in their order, and the addresses of the order are those that have an
    /// entry under the name.
    pub open spec fn ordered_at(&self, name: Seq<char>) -> bool {
        &&& self.node_order(name).no_duplicates()
        &&& forall|a: Address|
            self.state().nodes[name].contains_key(a) <==> #[trigger] self.node_order(name).contains(a)
    }

    /// The orders stand in step with what the directory knows: no manager
    /// comes twice in the order of the managers, whose addresses are those
    /// that the directory knows, and the nodes under every name stand in
    /// step. This holds of every directory.
    pub open spec fn ordered(&self) -> bool {
        &&& self.manager_order().no_duplicates()
        &&& forall|a: Address|
            self.state().managers.contains_key(a) <==> #[trigger] self.manager_order().contains(a)
        &&& forall|name: Seq<char>|
            self.state().nodes.contains_key(name) ==> #[trigger] self.ordered_at(name)
    }

    /// The orders of a directory stand in step with what it knows: see
    /// [`Directory::ordered`].
    pub fn in_step(&self)
        ensures
            self.ordered(),
    {
        self.state.managers.in_step();
        self.state.nodes.in_step();
        proof {
            self.state.managers.lemma_view_dom();
        }
        let n = self.state.nodes.len();
        let mut i: usize = 0;
        while i < n
            invariant
                i <= n,
                n == self.state.nodes.names().len(),
                self.state.nodes.names().no_duplicates(),
                forall|k: int|
                    0 <= k < n ==> self.state.nodes@.contains_key(
                        #[trigger] self.state.nodes.names()[k],
                    ),
                forall|m: Seq<char>|
                    #[trigger] self.state.nodes@.contains_key(m) <==> self.state.nodes.names().contains(
                        m,
                    ),
                forall|k: int| 0 <= k < i ==> self.ordered_at(#[trigger] self.state.nodes.names()[k]),
            decreases n - i,
        {
            let name = self.state.nodes.name_at(i);
            match self.state.nodes.get_with_keys(name) {
                Some(entries) => {
                    entries.in_step();
                    proof {
                        entries.lemma_view_dom();
                        assert(self.ordered_at(name@));
                    }
                },
                None => {},
            }
            i += 1;
        }
        proof {
            assert forall|name: Seq<char>| self.state().nodes.contains_key(name) implies #[trigger]
                self.ordered_at(name) by {
                let k = self.state.nodes.names().index_of(name);
                assert(self.state.nodes.names()[k] == name);
            }
        }
    }

    /// A directory that knows the managers `seed_peers` and no node.
    pub fn new(seed_peers: &Vec<Address>) -> (directory: Directory)
        ensures
            directory.ordered(),
            directory.state().nodes == Map::<Seq<char>, Entries>::empty(),
            forall|a: Address|
                #![trigger directory.state().managers.contains_key(a)]
                directory.state().managers.contains_key(a) <==> seed_peers@.contains(a),
            forall|a: Address|
                #![trigger directory.state().managers[a]]
                seed_peers@.contains(a) ==> !directory.state().managers[a],
    {
        let mut managers: AddressMap<bool> = AddressMap::new();
        let mut i: usize = 0;
        while i < seed_peers.len()
            invariant
                i <= seed_peers@.len(),
                forall|a: Address|
                    #![trigger managers@.contains_key(a)]
                    managers@.contains_key(a) <==> seed_peers@.take(i as int).contains(a),
                forall|a: Address|
                    #![trigger managers@[a]]
                    managers@.contains_key(a) ==> !managers@[a],
            decreases seed_peers@.len() - i,
        {
            let peer = seed_peers[i];
            let ghost mid = managers@;
            let _ = managers.insert(peer, false);
            proof {
                let taken = seed_peers@.take(i as int);
                let next = seed_peers@.take(i + 1);
                assert(next =~= taken.push(peer));
                assert forall|a: Address|
                    #![trigger managers@.contains_key(a)]
                    managers@.contains_key(a) <==> next.contains(a) by {
                    assert(mid.contains_key(a) <==> taken.contains(a));
                    if taken.contains(a) {
                        let x = taken.index_of(a);
                        assert(next[x] == a);
                    }
                    if a == peer {
                        assert(next[i as int] == a);
                    }
                    if next.contains(a) {
                        let x = next.index_of(a);
                        if x < i {
                            assert(taken[x] == a);
                        }
                    }
                }
                assert forall|a: Address|
                    #![trigger managers@[a]]
                    managers@.contains_key(a) implies !managers@[a] by {
                    if a != peer {
                        assert(mid.contains_key(a));
                        assert(!mid[a]);
                    }
                }
            }
            i += 1;
        }
        proof {
            assert(seed_peers@.take(seed_peers@.len() as int) =~= seed_peers@);
        }
        let directory = Directory { state: DirectoryState { managers, nodes: NameTable::new() } };
        directory.in_step();
        directory
    }

    /// Enters the manager that owns the directory, which is the actor of
    /// `ctx`, among the managers.
    pub fn init<A>(&mut self, ctx: &Context<A>)
        ensures
            final(self).state().nodes == old(self).state().nodes,
            final(self).state().managers == old(self).state().managers.insert(
                ctx.spec_me(),
                false,
            ),
    {
        let _ = self.state.managers.insert(ctx.me(), false);
    }

    /// Merges the state that a message from another directory carries.
    /// Any other message comes back unhandled.
    pub fn handle<A>(&mut self, message: Message, ctx: &mut Context<A>) -> (event: DirectoryEvent)
        ensures
            final(self).ordered(),
            final(ctx).extends(old(ctx)),
            final(ctx).spawned() == old(ctx).spawned(),
            final(ctx).retired() == old(ctx).retired(),
            match message {
                Message::Directory { state } => {
                    &&& event is UpdatedState
                    &&& final(self).merged(
                        old(self),
                        state@,
                        old(ctx).spec_me(),
                        final(ctx).sent().skip(old(ctx).sent().len() as int),
                    )
                },
                _ => {
                    &&& event == DirectoryEvent::Unhandled(message)
                    &&& *final(self) == *old(self)
                    &&& final(ctx).sent() == old(ctx).sent()
                },
            },
    {
        match message {
            Message::Directory { state } => {
                self.merge_and_update(state, ctx);
                DirectoryEvent::UpdatedState
            },
            other => {
                self.in_step();
                DirectoryEvent::Unhandled(other)
            },
        }
    }

    /// Whether `sent` tells the state of this directory to every manager that
    /// is not deleted, but for `me`.
    pub open spec fn disseminated(&self, me: Address, sent: Seq<Envelope>) -> bool {
        let peers = live_peers(self.manager_order(), self.state().managers, me);
        &&& sent.len() == peers.len()
        &&& forall|i: int|
            0 <= i < peers.len() ==> is_state_update(#[trigger] sent[i], me, peers[i], self.state())
    }

    /// Whether this directory is `before` once it has merged `theirs`, and has
    /// sent `sent` as the manager at `me`: where the merge has changed what
    /// the directory knows, it tells the other managers.
    pub open spec fn merged(
        &self,
        before: &Directory,
        theirs: DirectoryStateView,
        me: Address,
        sent: Seq<Envelope>,
    ) -> bool {
        &&& self.state() == before.state().merge(theirs)
        &&& if self.state() == before.state() {
            sent.len() == 0
        } else {
            self.disseminated(me, sent)
        }
    }

    /// Merges `new_state` into what the directory knows: see [`Directory::merged`].
    pub fn merge_and_update<A>(&mut self, new_state: DirectoryState, ctx: &mut Context<A>)
        ensures
            final(self).ordered(),
            final(ctx).extends(old(ctx)),
            final(ctx).spawned() == old(ctx).spawned(),
            final(ctx).retired() == old(ctx).retired(),
            final(self).merged(
                old(self),
                new_state@,
                old(ctx).spec_me(),
                final(ctx).sent().skip(old(ctx).sent().len() as int),
            ),
    {
        let managers_changed = merge_managers_into(&mut self.state.managers, &new_state.managers);
        let nodes_changed = merge_nodes_into(&mut self.state.nodes, &new_state.nodes);
        if managers_changed || nodes_changed {
            self.disseminate_state(ctx);
        } else {
            proof {
                assert(ctx.sent().skip(old(ctx).sent().len() as int).len() == 0);
            }
        }
        self.in_step();
    }

    /// Tells the state of the directory to every manager that is not
    /// deleted, but for the manager that owns the directory.
    pub fn disseminate_state<A>(&self, ctx: &mut Context<A>)
        ensures
            final(ctx).extends(old(ctx)),
            final(ctx).spawned() == old(ctx).spawned(),
            final(ctx).retired() == old(ctx).retired(),
            self.disseminated(
                old(ctx).spec_me(),
                final(ctx).sent().skip(old(ctx).sent().len() as int),
            ),
    {
        let me = ctx.me();
        let ghost sent0 = ctx.sent();
        let ghost keys = self.state.managers.keys();
        let ghost marks = self.state.managers@;
        self.state.managers.in_step();
        let n = self.state.managers.len();
        let mut i: usize = 0;
        while i < n
            invariant
                i <= n,
                n == keys.len(),
                keys == self.state.managers.keys(),
                marks == self.state.managers@,
                ctx.spec_me() == me,
                ctx.extends(old(ctx)),
                ctx.spawned() == old(ctx).spawned(),
                ctx.retired() == old(ctx).retired(),
                sent0 == old(ctx).sent(),
                ctx.sent().len() == sent0.len() + live_peers(keys.take(i as int), marks, me).len(),
                forall|k: int|
                    0 <= k < live_peers(keys.take(i as int), marks, me).len() ==> is_state_update(
                        #[trigger] ctx.sent()[sent0.len() + k],
                        me,
                        live_peers(keys.take(i as int), marks, me)[k],
                        self.state@,
                    ),
            decreases n - i,
        {
            let peer = self.state.managers.key_at(i);
            let removed = *self.state.managers.value_at(i);
            let ghost before = ctx.sent();
            let ghost done = live_peers(keys.take(i as int), marks, me);
            proof {
                assert(keys.take(i + 1).drop_last() =~= keys.take(i as int));
                assert(keys.take(i + 1).last() == keys[i as int]);
            }
            if !removed && !(peer == me) {
                ctx.send(peer, Message::Directory { state: self.state.clone() });
            }
            proof {
                let next = live_peers(keys.take(i + 1), marks, me);
                assert forall|k: int| 0 <= k < next.len() implies is_state_update(
                    #[trigger] ctx.sent()[sent0.len() + k],
                    me,
                    next[k],
                    self.state@,
                ) by {
                    if k < done.len() {
                        assert(ctx.sent()[sent0.len() + k] == before[sent0.len() + k]);
                    }
                }
            }
            i += 1;
        }
        proof {
            assert(keys.take(n as int) =~= keys);
            let sent = ctx.sent().skip(sent0.len() as int);
            let peers = live_peers(keys, marks, me);
            assert forall|k: int| 0 <= k < peers.len() implies is_state_update(
                #[trigger] sent[k],
                me,
                peers[k],
                self.state(),
            ) by {
                assert(sent[k] == ctx.sent()[sent0.len() + k]);
            }
        }
    }

    /// The nodes that are registered under `name`, each with its version.
    /// Nodes that were registered under one name at the same time are all
    /// there, until they are deleted.
    pub fn get(&self, name: &Name) -> (nodes: Vec<VersionedAddress>)
        ensures
            self.ordered(),
            nodes@ == if self.state().nodes.contains_key(name@) {
                registered(self.node_order(name@), self.state().nodes[name@])
            } else {
                Seq::empty()
            },
    {
        self.in_step();
        let mut nodes: Vec<VersionedAddress> = Vec::new();
        match self.state.nodes.get_with_keys(name) {
            None => {},
            Some(entries) => {
                entries.in_step();
                let ghost keys = entries.keys();
                let n = entries.len();
                let mut i: usize = 0;
                while i < n
                    invariant
                        i <= n,
                        n == keys.len(),
                        keys == entries.keys(),
                        entries.wf(),
                        nodes@ == registered(keys.take(i as int), entries@),
                    decreases n - i,
                {
                    let address = entries.key_at(i);
                    proof {
                        assert(keys.take(i + 1).drop_last() =~= keys.take(i as int));
                        assert(keys.take(i + 1).last() == keys[i as int]);
                    }
                    match *entries.value_at(i) {
                        Some(version) => {
                            nodes.push(VersionedAddress { address, version });
                        },
                        None => {},
                    }
                    i += 1;
                }
                proof {
                    assert(keys.take(n as int) =~= keys);
                }
            },
        }
        nodes
    }

    /// Whether `address` is registered, at its version, under some name.
    pub fn has(&self, address: &VersionedAddress) -> (found: bool)
        ensures
            found == has_node(self.state().nodes, *address),
    {
        self.state.nodes.in_step();
        let n = self.state.nodes.len();
        let mut i: usize = 0;
        while i < n
            invariant
                i <= n,
                n == self.state.nodes.names().len(),
                n == self.state.nodes.tables().len(),
                self.state.nodes.names().no_duplicates(),
                forall|k: int|
                    0 <= k < n ==> self.state.nodes@.contains_key(
                        #[trigger] self.state.nodes.names()[k],
                    ) && self.state.nodes@[self.state.nodes.names()[k]]
                        == self.state.nodes.tables()[k],
                forall|m: Seq<char>|
                    #[trigger] self.state.nodes@.contains_key(m)
                        <==> self.state.nodes.names().contains(m),
                forall|k: int|
                    0 <= k < i ==> !((#[trigger] self.state.nodes.tables()[k]).contains_key(
                        address.address,
                    ) && self.state.nodes.tables()[k][address.address] == Some(address.version)),
            decreases n - i,
        {
            let entries = self.state.nodes.table_at(i);
            match entries.get(address.address) {
                Some(Some(version)) => {
                    if *version == address.version {
                        proof {
                            let m = self.state.nodes.names()[i as int];
                            assert(self.state.nodes@.contains_key(m));
                        }
                        return true;
                    }
                },
                _ => {},
            }
            i += 1;
        }
        proof {
            if has_node(self.state.nodes@, *address) {
                let m = choose|m: Seq<char>|
                    #![trigger self.state.nodes@.contains_key(m)]
                    self.state.nodes@.contains_key(m) && self.state.nodes@[m].contains_key(
                        address.address,
                    ) && self.state.nodes@[m][address.address] == Some(address.version);
                let k = self.state.nodes.names().index_of(m);
                assert(self.state.nodes.names()[k] == m);
                assert(self.state.nodes.tables()[k] == self.state.nodes@[m]);
            }
        }
        false
    }

    /// Whether this directory is `before` once the node `node` was
    /// registered under `name`, and has sent `sent` as the manager at `me`:
    /// unless the node was entered already at its version or a later one,
    /// it is entered, and the other managers are told.
    pub open spec fn took_in(
        &self,
        before: Directory,
        name: Seq<char>,
        node: VersionedAddress,
        me: Address,
        sent: Seq<Envelope>,
    ) -> bool {
        &&& self.state().managers == before.state().managers
        &&& self.manager_order() == before.manager_order()
        &&& self.state().nodes == with_node(before.state().nodes, name, node)
        &&& if is_stale(before.state().nodes, name, node) {
            sent.len() == 0
        } else {
            self.disseminated(me, sent)
        }
    }

    /// Whether the node `address` is entered under `name` already, at its
    /// version or a later one: see [`is_stale`].
    pub fn stale(&self, name: &Name, address: VersionedAddress) -> (stale: bool)
        ensures
            stale == is_stale(self.state().nodes, name@, address),
    {
        match self.state.nodes.get(name) {
            None => false,
            Some(entries) => match entries.get(address.address) {
                Some(Some(known)) => known.0 >= address.version.0,
                _ => false,
            },
        }
    }

    /// Registers the node `address` under `name`, and tells the other
    /// managers. A node that is registered under the name already must come
    /// with a later version: to register it at the version that it has, or
    /// at an earlier one, is an error of the caller and is left out. A node
    /// that was deleted may come back.
    pub fn register<A>(&mut self, name: Name, address: VersionedAddress, ctx: &mut Context<A>)
        requires
            !is_stale(old(self).state().nodes, name@, address),
        ensures
            final(self).ordered(),
            final(ctx).extends(old(ctx)),
            final(ctx).spawned() == old(ctx).spawned(),
            final(ctx).retired() == old(ctx).retired(),
            final(self).state().managers == old(self).state().managers,
            final(self).manager_order() == old(self).manager_order(),
            final(self).took_in(
                *old(self),
                name@,
                address,
                old(ctx).spec_me(),
                final(ctx).sent().skip(old(ctx).sent().len() as int),
            ),
            final(self).disseminated(
                old(ctx).spec_me(),
                final(ctx).sent().skip(old(ctx).sent().len() as int),
            ),
    {
        match self.state.nodes.find(&name) {
            None => {
                let mut entries: AddressMap<Option<Version>> = AddressMap::new();
                let _ = entries.insert(address.address, Some(address.version));
                self.state.nodes.insert_new(name, entries);
            },
            Some(k) => {
                self.state.nodes.in_step();
                let entries = self.state.nodes.table_at_mut(k);
                let _ = entries.insert(address.address, Some(address.version));
            },
        }
        self.disseminate_state(ctx);
        self.in_step();
    }

    /// Deletes the node `address` wherever it is registered at its version,
    /// and returns whether it was registered anywhere. Where it was, the
    /// other managers are told.
    pub fn delete<A>(&mut self, address: VersionedAddress, ctx: &mut Context<A>) -> (deleted: bool)
        ensures
            final(self).ordered(),
            final(ctx).extends(old(ctx)),
            final(ctx).spawned() == old(ctx).spawned(),
            final(ctx).retired() == old(ctx).retired(),
            deleted == has_node(old(self).state().nodes, address),
            final(self).state().managers == old(self).state().managers,
            final(self).manager_order() == old(self).manager_order(),
            final(self).state().nodes == without_node(old(self).state().nodes, address),
            if deleted {
                final(self).disseminated(
                    old(ctx).spec_me(),
                    final(ctx).sent().skip(old(ctx).sent().len() as int),
                )
            } else {
                final(ctx).sent() == old(ctx).sent()
            },
    {
        let ghost before = self.state.nodes@;
        let ghost names = self.state.nodes.names();
        let ghost tables0 = self.state.nodes.tables();
        self.state.nodes.in_step();
        let mut deleted = false;
        let n = self.state.nodes.len();
        let mut i: usize = 0;
        while i < n
            invariant
                i <= n,
                n == names.len(),
                n == tables0.len(),
                names.no_duplicates(),
                self.state.nodes.names() == names,
                self.state.nodes.tables().len() == n,
                self.state.managers == old(self).state.managers,
                forall|k: int|
                    0 <= k < n ==> before.contains_key(#[trigger] names[k]) && before[names[k]]
                        == tables0[k],
                forall|m: Seq<char>| #[trigger] before.contains_key(m) <==> names.contains(m),
                forall|k: int|
                    0 <= k < i ==> #[trigger] self.state.nodes.tables()[k] == without_node(
                        before,
                        address,
                    )[names[k]],
                forall|k: int| i <= k < n ==> #[trigger] self.state.nodes.tables()[k] == tables0[k],
                deleted == exists|k: int|
                    0 <= k < i && (#[trigger] tables0[k]).contains_key(address.address)
                        && tables0[k][address.address] == Some(address.version),
            decreases n - i,
        {
            let found = match self.state.nodes.table_at(i).get(address.address) {
                Some(Some(version)) => *version == address.version,
                _ => false,
            };
            let ghost tables = self.state.nodes.tables();
            if found {
                let entries = self.state.nodes.table_at_mut(i);
                let _ = entries.insert(address.address, None);
                deleted = true;
            }
            proof {
                let now = self.state.nodes.tables();
                assert forall|k: int| 0 <= k < i + 1 implies #[trigger] now[k] == without_node(
                    before,
                    address,
                )[names[k]] by {
                    if k < i {
                        assert(now[k] == tables[k]);
                    }
                }
                assert forall|k: int| i + 1 <= k < n implies #[trigger] now[k] == tables0[k] by {
                    assert(now[k] == tables[k]);
                }
                if found {
                    assert(tables0[i as int].contains_key(address.address));
                }
            }
            i += 1;
        }
        self.state.nodes.in_step();
        proof {
            let now = self.state.nodes@;
            assert forall|m: Seq<char>| now.contains_key(m) implies now[m] == without_node(
                before,
                address,
            )[m] by {
                let k = names.index_of(m);
                assert(names[k] == m);
                assert(self.state.nodes.tables()[k] == now[m]);
            }
            assert(now =~= without_node(before, address));
            if has_node(before, address) {
                let m = choose|m: Seq<char>|
                    #![trigger before.contains_key(m)]
                    before.contains_key(m) && before[m].contains_key(address.address)
                        && before[m][address.address] == Some(address.version);
                let k = names.index_of(m);
                assert(names[k] == m);
                assert(tables0[k] == before[m]);
            }
            if deleted {
                let k = choose|k: int|
                    0 <= k < n && (#[trigger] tables0[k]).contains_key(address.address)
                        && tables0[k][address.address] == Some(address.version);
                assert(before.contains_key(names[k]));
            }
        }
        if deleted {
            self.disseminate_state(ctx);
        }
        self.in_step();
        deleted
    }
}

} // verus!
