//! The locks that a reactive node has granted.

use crate::address_map::AddressMap;
use crate::expr::Value;
use crate::message::{BasisStamp, ReactiveConfiguration, TxId};
use crate::tx_map::{tx_has, tx_index_of, TxMap};
use vstd::prelude::*;

verus! {

/// The one read that the holder of a lock may have outstanding.
#[derive(Debug, PartialEq, Eq)]
pub enum Read {
    /// The holder waits for a value that is at or ahead of this stamp.
    Pending(BasisStamp),
    /// The holder has been sent the value.
    Complete,
}

/// What every holder of a lock has staged, shared or exclusive.
#[derive(Debug, PartialEq, Eq)]
pub struct SharedLockState {
    /// Whether the holder has been asked to give the lock up.
    pub preempting: bool,
    /// The changes to the subscribers that the holder has staged.
    pub subscription_updates: AddressMap<bool>,
    /// The holder's read, if it has made one.
    pub read: Option<Read>,
}

impl SharedLockState {
    /// Whether this is the state of a lock that was just granted: nothing is
    /// staged, nothing was read, and nobody asked for the lock back.
    pub open spec fn is_fresh(&self) -> bool {
        &&& !self.preempting
        &&& self.subscription_updates@ == Map::<crate::actor::Address, bool>::empty()
        &&& self.subscription_updates.keys() == Seq::<crate::actor::Address>::empty()
        &&& self.read is None
    }

    /// The state of a lock that was just granted.
    pub fn fresh() -> (state: SharedLockState)
        ensures
            state.is_fresh(),
    {
        SharedLockState { preempting: false, subscription_updates: AddressMap::new(), read: None }
    }

    /// Marks the holder as asked to give the lock up. Returns whether it is
    /// now to be sent the request: that is so the first time only.
    pub fn preempt(&mut self) -> (send: bool)
        ensures
            send == !old(self).preempting,
            final(self).preempting,
            final(self).subscription_updates == old(self).subscription_updates,
            final(self).read == old(self).read,
    {
        if !self.preempting {
            self.preempting = true;
            true
        } else {
            false
        }
    }
}

impl Default for SharedLockState {
    fn default() -> (state: SharedLockState)
        ensures
            state.is_fresh(),
    {
        SharedLockState::fresh()
    }
}

/// What the holder of the exclusive lock has staged for the node itself.
#[derive(Debug, PartialEq, Eq)]
pub enum ExclusiveLockState {
    /// Nothing.
    Unchanged,
    /// A new value for a variable.
    Write(Value),
    /// A new configuration.
    Update(ReactiveConfiguration),
    /// The node's retirement.
    Retire,
}

/// The locks that are held on a node: none, shared locks of any number of
/// transactions, or the exclusive lock of one.
#[derive(Debug, PartialEq, Eq)]
pub enum HeldLocks {
    /// Nobody holds a lock.
    Free,
    /// The holders of shared locks, oldest transaction first.
    Shared(TxMap<SharedLockState>),
    /// The holder of the exclusive lock. It is a holder of a shared lock too.
    Exclusive(TxId, SharedLockState, ExclusiveLockState),
}

impl HeldLocks {
    /// The holders with what each has staged as a holder of a shared lock,
    /// oldest transaction first. The holder of the exclusive lock is one of
    /// them.
    pub open spec fn holders(&self) -> Seq<(TxId, SharedLockState)> {
        match self {
            HeldLocks::Free => Seq::empty(),
            HeldLocks::Shared(held) => held@,
            HeldLocks::Exclusive(txid, shared, _) => seq![(*txid, *shared)],
        }
    }

    /// Whether `txid` holds a lock, shared or exclusive.
    pub open spec fn holds(&self, txid: TxId) -> bool {
        tx_has(self.holders(), txid)
    }

    /// Whether `txid` holds the exclusive lock.
    pub open spec fn holds_exclusive(&self, txid: TxId) -> bool {
        self matches HeldLocks::Exclusive(held, _, _) && held == txid
    }

    /// The state of `txid` as a holder.
    pub open spec fn shared_of(&self, txid: TxId) -> SharedLockState {
        self.holders()[tx_index_of(self.holders(), txid)].1
    }

    /// Of two transactions that hold locks on one node, neither holds the
    /// exclusive lock unless the two are the same transaction: there is at most
    /// one exclusive holder, or any number of shared holders.
    pub proof fn lemma_exclusive_excludes(&self, a: TxId, b: TxId)
        requires
            self.holds_exclusive(a),
            self.holds(b),
        ensures
            a == b,
    {
    }

    /// What the holder `txid` of the exclusive lock has staged.
    pub fn exclusive(&self, txid: &TxId) -> (state: Option<&ExclusiveLockState>)
        ensures
            match state {
                Some(s) => self.holds_exclusive(*txid) && *s == (*self)->Exclusive_2,
                None => !self.holds_exclusive(*txid),
            },
    {
        match self {
            HeldLocks::Exclusive(held_txid, _, exclusive_data) => {
                if *held_txid == *txid {
                    Some(exclusive_data)
                } else {
                    None
                }
            },
            _ => None,
        }
    }

    /// What the holder `txid` of the exclusive lock has staged, to change it.
    pub fn exclusive_mut(&mut self, txid: &TxId) -> (state: Option<&mut ExclusiveLockState>)
        ensures
            match state {
                Some(s) => {
                    &&& old(self).holds_exclusive(*txid)
                    &&& *s == (*old(self))->Exclusive_2
                    &&& *final(self) == HeldLocks::Exclusive(
                        *txid,
                        (*old(self))->Exclusive_1,
                        *final(s),
                    )
                },
                None => !old(self).holds_exclusive(*txid) && *final(self) == *old(self),
            },
    {
        match self {
            HeldLocks::Exclusive(held_txid, _, exclusive_data) => {
                if *held_txid == *txid {
                    Some(exclusive_data)
                } else {
                    None
                }
            },
            _ => None,
        }
    }

    /// What the holder `txid` has staged as a holder of a shared lock.
    pub fn shared(&self, txid: &TxId) -> (state: Option<&SharedLockState>)
        ensures
            match state {
                Some(s) => self.holds(*txid) && *s == self.shared_of(*txid),
                None => !self.holds(*txid),
            },
    {
        match self {
            HeldLocks::Shared(held) => held.get(txid),
            HeldLocks::Exclusive(held_txid, shared_data, _) => {
                if *held_txid == *txid {
                    proof {
                        assert(self.holders()[0].0 == *txid);
                    }
                    Some(shared_data)
                } else {
                    None
                }
            },
            HeldLocks::Free => None,
        }
    }

    /// What the holder `txid` has staged as a holder of a shared lock, to
    /// change it. The other holders, and what is staged under the exclusive
    /// lock, stay as they are.
    pub fn shared_mut(&mut self, txid: &TxId) -> (state: Option<&mut SharedLockState>)
        ensures
            match state {
                Some(s) => {
                    &&& old(self).holds(*txid)
                    &&& *s == old(self).shared_of(*txid)
                    &&& final(self).holders() == old(self).holders().update(
                        tx_index_of(old(self).holders(), *txid),
                        (*txid, *final(s)),
                    )
                    &&& *old(self) is Shared ==> *final(self) is Shared
                    &&& *old(self) matches HeldLocks::Exclusive(t, _, e) ==> *final(self)
                        matches HeldLocks::Exclusive(t2, _, e2) && t2 == t && e2 == e
                },
                None => !old(self).holds(*txid) && *final(self) == *old(self),
            },
    {
        match self {
            HeldLocks::Shared(held) => held.get_mut(txid),
            HeldLocks::Exclusive(held_txid, shared_data, _) => {
                if *held_txid == *txid {
                    proof {
                        assert(old(self).holders()[0].0 == *txid);
                    }
                    Some(shared_data)
                } else {
                    None
                }
            },
            HeldLocks::Free => None,
        }
    }

    /// Whether `self` is `before` with nothing changed but what the holders
    /// have staged as holders of shared locks.
    pub open spec fn same_shape(&self, before: &HeldLocks) -> bool {
        &&& self.holders().len() == before.holders().len()
        &&& forall|i: int|
            0 <= i < before.holders().len() ==> (#[trigger] self.holders()[i]).0
                == before.holders()[i].0
        &&& match *before {
            HeldLocks::Free => *self is Free,
            HeldLocks::Shared(_) => *self is Shared,
            HeldLocks::Exclusive(_, _, staged) => *self matches HeldLocks::Exclusive(_, _, s) && s
                == staged,
        }
    }

    /// The number of holders.
    pub fn holder_count(&self) -> (n: usize)
        ensures
            n == self.holders().len(),
    {
        match self {
            HeldLocks::Free => 0,
            HeldLocks::Shared(held) => held.len(),
            HeldLocks::Exclusive(_, _, _) => 1,
        }
    }

    /// The `i`-th holder, counted from the oldest.
    pub fn holder_txid(&self, i: usize) -> (txid: TxId)
        requires
            i < self.holders().len(),
        ensures
            txid == self.holders()[i as int].0,
    {
        match self {
            HeldLocks::Shared(held) => held.key_at(i),
            HeldLocks::Exclusive(txid, _, _) => *txid,
            HeldLocks::Free => vstd::pervasive::unreached(),
        }
    }

    /// What the `i`-th holder has staged as a holder of a shared lock.
    pub fn holder_state(&self, i: usize) -> (state: &SharedLockState)
        requires
            i < self.holders().len(),
        ensures
            *state == self.holders()[i as int].1,
    {
        match self {
            HeldLocks::Shared(held) => held.value_at(i),
            HeldLocks::Exclusive(_, shared, _) => shared,
            HeldLocks::Free => vstd::pervasive::unreached(),
        }
    }

    /// What the `i`-th holder has staged as a holder of a shared lock, to
    /// change it.
    pub fn holder_state_mut(&mut self, i: usize) -> (state: &mut SharedLockState)
        requires
            i < old(self).holders().len(),
        ensures
            *state == old(self).holders()[i as int].1,
            final(self).holders() == old(self).holders().update(
                i as int,
                (old(self).holders()[i as int].0, *final(state)),
            ),
            final(self).same_shape(old(self)),
    {
        match self {
            HeldLocks::Shared(held) => held.value_at_mut(i),
            HeldLocks::Exclusive(_, shared, _) => {
                proof {
                    assert(seq![(old(self)->Exclusive_0, *final(shared))] =~= old(
                        self,
                    ).holders().update(i as int, (old(self).holders()[i as int].0, *final(shared))));
                }
                shared
            },
            HeldLocks::Free => vstd::pervasive::unreached(),
        }
    }

    /// The transactions that hold a lock, oldest first.
    pub fn visit_shared(&self) -> (txids: Vec<TxId>)
        ensures
            txids@.len() == self.holders().len(),
            forall|i: int| 0 <= i < txids@.len() ==> txids@[i] == self.holders()[i].0,
    {
        let mut txids: Vec<TxId> = Vec::new();
        match self {
            HeldLocks::Shared(held) => {
                let mut i: usize = 0;
                while i < held.len()
                    invariant
                        i <= held@.len(),
                        txids@.len() == i,
                        forall|j: int| 0 <= j < i ==> txids@[j] == held@[j].0,
                    decreases held@.len() - i,
                {
                    txids.push(held.key_at(i));
                    i += 1;
                }
            },
            HeldLocks::Exclusive(txid, _, _) => {
                txids.push(*txid);
            },
            HeldLocks::Free => {},
        }
        txids
    }
}

} // verus!
