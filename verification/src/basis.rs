//! Iterations and basis stamps.
//!
//! A basis stamp maps root addresses to iterations. It serves both as the
//! causal watermark of a read and as the version vector of a value.

use crate::actor::Address;
use crate::address_map::{AddressMap, AddressSet};
use vstd::prelude::*;

verus! {

/// The logical clock of one variable: it goes up by one with every commit that
/// writes the variable.
#[derive(Debug, Clone, Copy, PartialEq, Eq, Structural, Hash)]
pub struct Iteration(pub usize);

impl Iteration {
    /// The iteration of a variable that was never written.
    pub fn zero() -> (i: Iteration)
        ensures
            i.0 == 0,
    {
        Iteration(0)
    }

    /// The iteration that follows this one.
    #[must_use]
    pub fn increment(self) -> (next: Iteration)
        requires
            self.0 < usize::MAX,
        ensures
            next.0 == self.0 + 1,
    {
        Iteration(self.0 + 1)
    }
}

/// The mathematical content of a basis stamp.
pub type Stamp = Map<Address, nat>;

/// The iteration that `stamp` records for `root`; 0 where it records none.
pub open spec fn stamp_latest(stamp: Stamp, root: Address) -> nat {
    if stamp.contains_key(root) {
        stamp[root]
    } else {
        0
    }
}

/// The larger of two iterations.
pub open spec fn later(a: nat, b: nat) -> nat {
    if a >= b {
        a
    } else {
        b
    }
}

/// `stamp` with `root` raised to at least `iteration`.
pub open spec fn stamp_add(stamp: Stamp, root: Address, iteration: nat) -> Stamp {
    stamp.insert(root, later(stamp_latest(stamp, root), iteration))
}

/// The pointwise maximum of two stamps, over the roots that either records.
pub open spec fn stamp_merge(a: Stamp, b: Stamp) -> Stamp {
    Map::new(
        |r: Address| a.contains_key(r) || b.contains_key(r),
        |r: Address| later(stamp_latest(a, r), stamp_latest(b, r)),
    )
}

/// Whether `a` is at or behind `b` on every root in `roots`.
pub open spec fn stamp_prec_eq(a: Stamp, b: Stamp, roots: Set<Address>) -> bool {
    forall|r: Address| roots.contains(r) ==> stamp_latest(a, r) <= #[trigger] stamp_latest(b, r)
}

/// Whether `a` is at or behind `b` on every root.
pub open spec fn stamp_le(a: Stamp, b: Stamp) -> bool {
    forall|r: Address| stamp_latest(a, r) <= #[trigger] stamp_latest(b, r)
}

/// Merging with the empty stamp changes nothing.
pub proof fn lemma_merge_empty(a: Stamp)
    ensures
        stamp_merge(a, Map::empty()) == a,
        stamp_merge(Map::empty(), a) == a,
{
    assert(stamp_merge(a, Map::empty()) =~= a);
    assert(stamp_merge(Map::empty(), a) =~= a);
}

/// Merging does not depend on the order of its two arguments.
pub proof fn lemma_merge_commutative(a: Stamp, b: Stamp)
    ensures
        stamp_merge(a, b) == stamp_merge(b, a),
{
    assert(stamp_merge(a, b) =~= stamp_merge(b, a));
}

/// Merging three stamps does not depend on how they are grouped.
pub proof fn lemma_merge_associative(a: Stamp, b: Stamp, c: Stamp)
    ensures
        stamp_merge(a, stamp_merge(b, c)) == stamp_merge(stamp_merge(a, b), c),
{
    assert(stamp_merge(a, stamp_merge(b, c)) =~= stamp_merge(stamp_merge(a, b), c));
}

/// Merging a stamp with itself changes nothing.
pub proof fn lemma_merge_idempotent(a: Stamp)
    ensures
        stamp_merge(a, a) == a,
{
    assert(stamp_merge(a, a) =~= a);
}

/// A merge is at or ahead of both of its arguments, and it is the least such
/// stamp.
pub proof fn lemma_merge_is_least_upper_bound(a: Stamp, b: Stamp, c: Stamp)
    ensures
        stamp_le(a, stamp_merge(a, b)),
        stamp_le(b, stamp_merge(a, b)),
        stamp_le(a, c) && stamp_le(b, c) ==> stamp_le(stamp_merge(a, b), c),
{
}

/// Two stamps that precede each other on `roots` record the same iteration
/// for every root in `roots`.
pub proof fn lemma_prec_eq_antisymmetric(a: Stamp, b: Stamp, roots: Set<Address>)
    requires
        stamp_prec_eq(a, b, roots),
        stamp_prec_eq(b, a, roots),
    ensures
        forall|r: Address| roots.contains(r) ==> stamp_latest(a, r) == stamp_latest(b, r),
{
}

/// Precedence on a set of roots is reflexive and transitive.
pub proof fn lemma_prec_eq_preorder(a: Stamp, b: Stamp, c: Stamp, roots: Set<Address>)
    ensures
        stamp_prec_eq(a, a, roots),
        stamp_prec_eq(a, b, roots) && stamp_prec_eq(b, c, roots) ==> stamp_prec_eq(a, c, roots),
{
}

/// Whether `joined` is the pointwise maximum of the stamps in `parts`: it
/// records the roots that some part records, it is at or ahead of every part,
/// and what it records for a root some part records too.
pub open spec fn stamp_is_join(joined: Stamp, parts: Set<Stamp>) -> bool {
    &&& forall|r: Address|
        joined.contains_key(r) <==> exists|p: Stamp| parts.contains(p) && #[trigger] p.contains_key(r)
    &&& forall|p: Stamp, r: Address|
        parts.contains(p) ==> #[trigger] stamp_latest(p, r) <= stamp_latest(joined, r)
    &&& forall|r: Address|
        joined.contains_key(r) ==> exists|p: Stamp|
            parts.contains(p) && #[trigger] stamp_latest(p, r) == joined[r]
}

/// A set of stamps has one pointwise maximum only.
pub proof fn lemma_join_unique(a: Stamp, b: Stamp, parts: Set<Stamp>)
    requires
        stamp_is_join(a, parts),
        stamp_is_join(b, parts),
    ensures
        a == b,
{
    assert forall|r: Address| a.contains_key(r) implies b.contains_key(r) && a[r] == b[r] by {
        let p = choose|p: Stamp| parts.contains(p) && #[trigger] stamp_latest(p, r) == a[r];
        let w = choose|p: Stamp| parts.contains(p) && #[trigger] p.contains_key(r);
        assert(b.contains_key(r));
        let q = choose|q: Stamp| parts.contains(q) && #[trigger] stamp_latest(q, r) == b[r];
        assert(stamp_latest(p, r) <= stamp_latest(b, r));
        assert(stamp_latest(q, r) <= stamp_latest(a, r));
    }
    assert forall|r: Address| b.contains_key(r) implies a.contains_key(r) by {
        let w = choose|p: Stamp| parts.contains(p) && #[trigger] p.contains_key(r);
    }
    assert(a =~= b);
}

/// The empty stamp is the maximum of no stamps.
pub proof fn lemma_join_empty()
    ensures
        stamp_is_join(Map::empty(), Set::empty()),
{
}

/// A stamp is the maximum of itself alone.
pub proof fn lemma_join_single(a: Stamp)
    ensures
        stamp_is_join(a, set![a]),
{
    assert forall|r: Address| a.contains_key(r) implies exists|p: Stamp|
        set![a].contains(p) && #[trigger] p.contains_key(r) by {
        assert(set![a].contains(a) && a.contains_key(r));
    }
    assert forall|r: Address| a.contains_key(r) implies exists|p: Stamp|
        set![a].contains(p) && #[trigger] stamp_latest(p, r) == a[r] by {
        assert(set![a].contains(a) && stamp_latest(a, r) == a[r]);
    }
}

/// Merging one more stamp into the maximum of some stamps gives the maximum
/// of them all.
pub proof fn lemma_join_insert(joined: Stamp, parts: Set<Stamp>, more: Stamp)
    requires
        stamp_is_join(joined, parts),
    ensures
        stamp_is_join(stamp_merge(joined, more), parts.insert(more)),
{
    let merged = stamp_merge(joined, more);
    let all = parts.insert(more);
    assert forall|r: Address| merged.contains_key(r) implies exists|p: Stamp|
        all.contains(p) && #[trigger] p.contains_key(r) by {
        if joined.contains_key(r) {
            let p = choose|p: Stamp| parts.contains(p) && #[trigger] p.contains_key(r);
            assert(all.contains(p) && p.contains_key(r));
        } else {
            assert(all.contains(more) && more.contains_key(r));
        }
    }
    assert forall|r: Address| (exists|p: Stamp| all.contains(p) && #[trigger] p.contains_key(r))
        implies merged.contains_key(r) by {
        let p = choose|p: Stamp| all.contains(p) && #[trigger] p.contains_key(r);
        if p != more {
            assert(parts.contains(p));
        }
    }
    assert forall|p: Stamp, r: Address| all.contains(p) implies #[trigger] stamp_latest(p, r)
        <= stamp_latest(merged, r) by {
        if p != more {
            assert(parts.contains(p));
            assert(stamp_latest(p, r) <= stamp_latest(joined, r));
        }
    }
    assert forall|r: Address| merged.contains_key(r) implies exists|p: Stamp|
        all.contains(p) && #[trigger] stamp_latest(p, r) == merged[r] by {
        if stamp_latest(joined, r) >= stamp_latest(more, r) && joined.contains_key(r) {
            let p = choose|p: Stamp| parts.contains(p) && #[trigger] stamp_latest(p, r) == joined[r];
            assert(all.contains(p) && stamp_latest(p, r) == merged[r]);
        } else {
            assert(all.contains(more) && stamp_latest(more, r) == merged[r]);
        }
    }
}

/// The maximum of fewer stamps is at or behind the maximum of more.
pub proof fn lemma_join_monotonic(a: Stamp, fewer: Set<Stamp>, b: Stamp, more: Set<Stamp>)
    requires
        stamp_is_join(a, fewer),
        stamp_is_join(b, more),
        fewer.subset_of(more),
    ensures
        stamp_le(a, b),
{
    assert forall|r: Address| stamp_latest(a, r) <= #[trigger] stamp_latest(b, r) by {
        if a.contains_key(r) {
            let p = choose|p: Stamp| fewer.contains(p) && #[trigger] stamp_latest(p, r) == a[r];
            assert(more.contains(p));
            assert(stamp_latest(p, r) <= stamp_latest(b, r));
        }
    }
}

/// A map from root addresses to iterations.
#[derive(Debug, PartialEq, Eq)]
pub struct BasisStamp {
    roots: AddressMap<Iteration>,
}

impl BasisStamp {
    /// The stamp as a mathematical map from roots to iterations.
    pub closed spec fn view(&self) -> Stamp {
        Map::new(
            |r: Address| self.roots@.contains_key(r),
            |r: Address| self.roots@[r].0 as nat,
        )
    }

    /// The iteration recorded for `root`; 0 where none is.
    pub open spec fn spec_latest(&self, root: Address) -> nat {
        stamp_latest(self@, root)
    }

    /// The stamp that records no root.
    pub fn empty() -> (stamp: BasisStamp)
        ensures
            stamp@ == Map::<Address, nat>::empty(),
    {
        let stamp = BasisStamp { roots: AddressMap::new() };
        assert(stamp@ =~= Map::<Address, nat>::empty());
        stamp
    }

    /// Whether the stamp records no root at all.
    pub fn is_empty(&self) -> (b: bool)
        ensures
            b == (self@ == Map::<Address, nat>::empty()),
    {
        let b = self.roots.is_empty();
        proof {
            use_type_invariant(&self.roots);
            if b {
                assert(self@ =~= Map::<Address, nat>::empty());
            } else {
                self.roots.lemma_view_at(0);
                assert(self@.contains_key(self.roots.keys()[0]));
            }
        }
        b
    }

    /// The iteration recorded for `address`, or zero.
    pub fn latest(&self, address: Address) -> (iteration: Iteration)
        ensures
            iteration.0 == self.spec_latest(address),
    {
        match self.roots.get(address) {
            Some(iteration) => *iteration,
            None => Iteration(0),
        }
    }

    /// Raises the iteration recorded for `address` to at least `iteration`.
    pub fn add(&mut self, address: Address, iteration: Iteration)
        ensures
            final(self)@ == stamp_add(old(self)@, address, iteration.0 as nat),
    {
        let ghost before = *self;
        let current = self.latest(address);
        let raised = if current.0 >= iteration.0 {
            current
        } else {
            iteration
        };
        let _ = self.roots.insert(address, raised);
        proof {
            assert(self@ =~= stamp_add(before@, address, iteration.0 as nat));
        }
    }

    /// Raises every root to at least what `other` records for it.
    pub fn merge_from(&mut self, other: &BasisStamp)
        ensures
            final(self)@ == stamp_merge(old(self)@, other@),
    {
        let ghost before = *self;
        let n = other.roots.len();
        let mut i: usize = 0;
        while i < n
            invariant
                n == other.roots.keys().len(),
                i <= n,
                forall|r: Address|
                    self@.contains_key(r) <==> before@.contains_key(r)
                        || other.roots.keys().take(i as int).contains(r),
                forall|r: Address|
                    #[trigger] stamp_latest(self@, r) == later(
                        stamp_latest(before@, r),
                        if other.roots.keys().take(i as int).contains(r) {
                            stamp_latest(other@, r)
                        } else {
                            0
                        },
                    ),
            decreases n - i,
        {
            let key = other.roots.key_at(i);
            let iteration = *other.roots.value_at(i);
            let ghost taken = other.roots.keys().take(i as int);
            let ghost mid = *self;
            proof {
                use_type_invariant(&other.roots);
                if taken.contains(key) {
                    let j = taken.index_of(key);
                    assert(other.roots.keys()[j] == key);
                }
                assert(stamp_latest(other@, key) == iteration.0);
            }
            self.add(key, iteration);
            i += 1;
            proof {
                let next = other.roots.keys().take(i as int);
                assert(next =~= taken.push(key));
                assert forall|r: Address| next.contains(r) <==> taken.contains(r) || r == key by {
                    if taken.contains(r) {
                        let j = taken.index_of(r);
                        assert(next[j] == r);
                    }
                    if r == key {
                        assert(next[i - 1] == r);
                    }
                    if next.contains(r) {
                        let j = next.index_of(r);
                        if j < i - 1 {
                            assert(taken[j] == r);
                        }
                    }
                }
                assert forall|r: Address|
                    self@.contains_key(r) <==> before@.contains_key(r) || next.contains(r) by {
                    assert(mid@.contains_key(r) <==> before@.contains_key(r) || taken.contains(r));
                }
                assert forall|r: Address|
                    #[trigger] stamp_latest(self@, r) == later(
                        stamp_latest(before@, r),
                        if next.contains(r) {
                            stamp_latest(other@, r)
                        } else {
                            0
                        },
                    ) by {
                    assert(stamp_latest(mid@, r) == later(
                        stamp_latest(before@, r),
                        if taken.contains(r) {
                            stamp_latest(other@, r)
                        } else {
                            0
                        },
                    ));
                }
            }
        }
        proof {
            use_type_invariant(&other.roots);
            assert(other.roots.keys().take(n as int) =~= other.roots.keys());
            other.roots.lemma_view_dom();
            assert forall|r: Address| #[trigger]
                self@.contains_key(r) implies self@[r] == stamp_merge(before@, other@)[r] by {
                assert(stamp_latest(self@, r) == self@[r]);
            }
            assert(self@ =~= stamp_merge(before@, other@));
        }
    }

    /// Forgets every root.
    pub fn clear(&mut self)
        ensures
            final(self)@ == Map::<Address, nat>::empty(),
    {
        self.roots = AddressMap::new();
        proof {
            assert(self@ =~= Map::<Address, nat>::empty());
        }
    }

    /// Whether this stamp is at or behind `other` on every root of `roots`.
    pub fn prec_eq_wrt_roots(&self, other: &BasisStamp, roots: &AddressSet) -> (b: bool)
        ensures
            b == stamp_prec_eq(self@, other@, roots@),
    {
        let mut i: usize = 0;
        while i < roots.len()
            invariant
                i <= roots.members().len(),
                forall|j: int|
                    0 <= j < i ==> stamp_latest(self@, roots.members()[j]) <= stamp_latest(
                        other@,
                        roots.members()[j],
                    ),
            decreases roots.members().len() - i,
        {
            let root = roots.member_at(i);
            if self.latest(root).0 > other.latest(root).0 {
                return false;
            }
            i += 1;
        }
        proof {
            assert forall|r: Address| roots@.contains(r) implies stamp_latest(self@, r)
                <= #[trigger] stamp_latest(other@, r) by {
                let j = roots.members().index_of(r);
                assert(roots.members()[j] == r);
            }
        }
        true
    }
}

impl Clone for BasisStamp {
    fn clone(&self) -> (stamp: Self)
        ensures
            stamp@ == self@,
    {
        let stamp = BasisStamp { roots: self.roots.duplicate() };
        proof {
            assert(stamp@ =~= self@);
        }
        stamp
    }
}

} // verus!
