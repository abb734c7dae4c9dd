//! The lock table of a reactive node: who waits for a lock, who holds one,
//! and who is granted one next.
//!
//! Locks are granted by Wound-Wait. Requests wait in the order of their
//! transactions, oldest first. A request that an older transaction makes
//! against a younger holder has the holder asked, once, to give the lock up.

use crate::message::{BasisStamp, LockKind, Message, TxId, Violation};
use crate::reactive::held_locks::{ExclusiveLockState, HeldLocks, SharedLockState};
use crate::tx_map::{tx_has, tx_index_of, tx_inserted, tx_rank, tx_removed, tx_sorted, tx_value, TxMap};
use vstd::prelude::*;

verus! {

/// What a transaction had staged under the lock that it gave up.
#[derive(Debug, PartialEq, Eq)]
pub struct LockData {
    pub shared: SharedLockState,
    /// Present where the lock was the exclusive one.
    pub exclusive: Option<ExclusiveLockState>,
}

/// What became of a message that was handed to the lock table.
#[derive(Debug, PartialEq, Eq)]
pub enum LockEvent {
    /// The message is none of the lock table's; here it is back.
    Unhandled(Message),
    /// A request for a lock now waits in the queue.
    Queued { txid: TxId, kind: LockKind },
    /// A lock was given up; what was staged under it is to be dropped.
    Aborted { txid: TxId, data: LockData },
    /// A lock was given up; what was staged under it is to be applied, stamped
    /// with `basis`.
    Released { txid: TxId, data: LockData, basis: BasisStamp },
}

/// The requests that one pass over the queue granted, and the holders that it
/// asked to give their locks up.
#[derive(Debug, PartialEq, Eq)]
pub struct Granted {
    /// The transactions that were granted a lock, oldest first.
    pub granted: Vec<TxId>,
    /// The holders that are now to be sent a request to give their lock up,
    /// youngest first.
    pub preempted: Vec<TxId>,
}

/// The number of requests at the front of `queue` that ask for a shared lock.
pub open spec fn shared_prefix(queue: Seq<(TxId, LockKind)>) -> nat
    decreases queue.len(),
{
    if queue.len() == 0 || queue[0].1 is Exclusive {
        0
    } else {
        1 + shared_prefix(queue.drop_first())
    }
}

/// The number of requests, from the front of `queue`, that are granted while
/// `held` is held: none beside an exclusive lock; beside shared locks every
/// request up to the first that asks for the exclusive lock; and where no
/// lock is held the same, or the first request alone where it asks for the
/// exclusive lock.
pub open spec fn grant_count(queue: Seq<(TxId, LockKind)>, held: HeldLocks) -> nat {
    match held {
        HeldLocks::Exclusive(_, _, _) => 0,
        HeldLocks::Shared(_) => shared_prefix(queue),
        HeldLocks::Free => if queue.len() > 0 && queue[0].1 is Exclusive {
            1
        } else {
            shared_prefix(queue)
        },
    }
}

/// Whether the request of `blocked`, which waits at the head of the queue,
/// wounds the holder `holder`. A holder of a shared lock is wounded unless it
/// is older than the request; the holder of the exclusive lock is wounded
/// where the request is older than it.
pub open spec fn wounds(blocked: Option<TxId>, holds_exclusive: bool, holder: TxId) -> bool {
    match blocked {
        Some(candidate) => if holds_exclusive {
            candidate.spec_lt(holder)
        } else {
            !holder.spec_lt(candidate)
        },
        None => false,
    }
}

/// Whether `state` is what the holder `txid` has after a pass over the queue
/// that granted `granted` and left `blocked` at the head of the queue: a
/// holder that was just granted its lock starts afresh; any other holder
/// keeps what it had staged, and is marked as asked to give the lock up where
/// it is wounded or was marked before.
pub open spec fn holder_after(
    before: HeldLocks,
    granted: Seq<TxId>,
    blocked: Option<TxId>,
    holds_exclusive: bool,
    txid: TxId,
    state: SharedLockState,
) -> bool {
    if granted.contains(txid) {
        state.is_fresh()
    } else {
        &&& before.holds(txid)
        &&& state.preempting == (before.shared_of(txid).preempting || wounds(
            blocked,
            holds_exclusive,
            txid,
        ))
        &&& state.subscription_updates == before.shared_of(txid).subscription_updates
        &&& state.read == before.shared_of(txid).read
    }
}

/// The transactions of the first `count` requests of `queue`.
pub open spec fn granted_keys(queue: Seq<(TxId, LockKind)>, count: nat) -> Seq<TxId> {
    Seq::new(count, |i: int| queue[i].0)
}

/// Whether a pass over `queue` beside the held locks `before` leaves the held
/// locks `after` and the queue `rest`, and grants `granted`.
pub open spec fn granted_state(
    queue: Seq<(TxId, LockKind)>,
    before: HeldLocks,
    after: HeldLocks,
    rest: Seq<(TxId, LockKind)>,
    granted: Seq<TxId>,
) -> bool {
    let count = grant_count(queue, before);
    let blocked = if rest.len() > 0 {
        Some(rest[0].0)
    } else {
        None
    };
    &&& count <= queue.len()
    &&& rest == queue.skip(count as int)
    &&& granted == granted_keys(queue, count)
    &&& match before {
        HeldLocks::Exclusive(holder, _, staged) => after matches HeldLocks::Exclusive(h, _, s)
            && h == holder && s == staged,
        HeldLocks::Shared(_) => after is Shared,
        HeldLocks::Free => if count == 0 {
            after is Free
        } else if queue[0].1 is Exclusive {
            after matches HeldLocks::Exclusive(h, _, s) && h == queue[0].0 && s is Unchanged
        } else {
            after is Shared
        },
    }
    &&& tx_sorted(after.holders())
    &&& forall|u: TxId|
        #![trigger after.holds(u)]
        #![trigger before.holds(u)]
        #![trigger granted.contains(u)]
        after.holds(u) <==> before.holds(u) || granted.contains(u)
    &&& forall|u: TxId|
        after.holds(u) ==> holder_after(
            before,
            granted,
            blocked,
            after is Exclusive,
            u,
            #[trigger] after.shared_of(u),
        )
}

/// Whether `preempted` lists, youngest first, the holders that were not asked
/// to give their locks up in `before` and are asked in `after`.
pub open spec fn preempted_are(
    before: HeldLocks,
    after: HeldLocks,
    granted: Seq<TxId>,
    preempted: Seq<TxId>,
) -> bool {
    &&& forall|u: TxId|
        preempted.contains(u) <==> {
            &&& before.holds(u)
            &&& !granted.contains(u)
            &&& !before.shared_of(u).preempting
            &&& after.holds(u)
            &&& after.shared_of(u).preempting
        }
    &&& forall|i: int, j: int|
        0 <= i < j < preempted.len() ==> (#[trigger] preempted[j]).spec_lt(#[trigger] preempted[i])
}

/// Whether `after` is `before` but marked as asked to give the lock up.
pub open spec fn marked(before: SharedLockState, after: SharedLockState) -> bool {
    &&& after.preempting
    &&& after.subscription_updates == before.subscription_updates
    &&& after.read == before.read
}

/// The first request of a queue that starts with a request for a shared lock
/// counts, and the rest of the queue goes on.
pub proof fn lemma_shared_prefix_step(queue: Seq<(TxId, LockKind)>)
    requires
        queue.len() > 0,
        queue[0].1 is Shared,
    ensures
        shared_prefix(queue) == 1 + shared_prefix(queue.skip(1)),
        shared_prefix(queue) <= queue.len(),
    decreases queue.len(),
{
    assert(queue.drop_first() =~= queue.skip(1));
    lemma_shared_prefix_bound(queue.skip(1));
}

/// No more requests are counted than there are.
pub proof fn lemma_shared_prefix_bound(queue: Seq<(TxId, LockKind)>)
    ensures
        shared_prefix(queue) <= queue.len(),
    decreases queue.len(),
{
    if queue.len() > 0 && !(queue[0].1 is Exclusive) {
        lemma_shared_prefix_bound(queue.drop_first());
    }
}

/// Grants the requests for shared locks at the front of `queue`: each leaves
/// the queue and joins `shared` with a fresh state.
fn grant_shared(queue: &mut TxMap<LockKind>, shared: &mut TxMap<SharedLockState>) -> (granted: Vec<
    TxId,
>)
    ensures
        shared_prefix(old(queue)@) <= old(queue)@.len(),
        final(queue)@ == old(queue)@.skip(shared_prefix(old(queue)@) as int),
        final(queue)@.len() == 0 || final(queue)@[0].1 is Exclusive,
        granted@ == granted_keys(old(queue)@, shared_prefix(old(queue)@)),
        tx_sorted(final(shared)@),
        forall|u: TxId|
            #![trigger tx_has(final(shared)@, u)]
            #![trigger tx_has(old(shared)@, u)]
            #![trigger granted@.contains(u)]
            tx_has(final(shared)@, u) <==> tx_has(old(shared)@, u) || granted@.contains(u),
        forall|u: TxId|
            tx_has(final(shared)@, u) ==> if granted@.contains(u) {
                (#[trigger] tx_value(final(shared)@, u)).is_fresh()
            } else {
                tx_value(final(shared)@, u) == tx_value(old(shared)@, u)
            },
{
    let ghost queue0 = queue@;
    let ghost shared0 = shared@;
    let mut granted: Vec<TxId> = Vec::new();
    shared.sorted();
    proof {
        lemma_shared_prefix_bound(queue0);
        assert(queue0.skip(0) =~= queue0);
    }
    while queue.len() > 0 && *queue.value_at(0) == LockKind::Shared
        invariant
            granted@.len() <= queue0.len(),
            queue@ == queue0.skip(granted@.len() as int),
            shared_prefix(queue0) == granted@.len() + shared_prefix(queue@),
            shared_prefix(queue0) <= queue0.len(),
            granted@ == granted_keys(queue0, granted@.len()),
            tx_sorted(shared@),
            forall|u: TxId|
                #![trigger tx_has(shared@, u)]
                #![trigger tx_has(shared0, u)]
                #![trigger granted@.contains(u)]
                tx_has(shared@, u) <==> tx_has(shared0, u) || granted@.contains(u),
            forall|u: TxId|
                tx_has(shared@, u) ==> if granted@.contains(u) {
                    (#[trigger] tx_value(shared@, u)).is_fresh()
                } else {
                    tx_value(shared@, u) == tx_value(shared0, u)
                },
        decreases queue@.len(),
    {
        let ghost queue_before = queue@;
        let ghost shared_before = shared@;
        let ghost granted_before = granted@;
        proof {
            lemma_shared_prefix_step(queue@);
        }
        let entry = queue.remove_at(0);
        let txid = entry.0;
        let _ = shared.insert(txid, SharedLockState::fresh());
        granted.push(txid);
        proof {
            let g = granted_before.len() as int;
            assert(queue@ =~= queue0.skip(g + 1));
            assert(queue_before.skip(1) =~= queue@);
            assert(txid == queue0[g].0);
            assert(granted@ =~= granted_keys(queue0, granted@.len()));
            assert(granted@ =~= granted_before.push(txid));
            assert forall|u: TxId| granted@.contains(u) <==> granted_before.contains(u) || u
                == txid by {
                if granted_before.contains(u) {
                    let j = granted_before.index_of(u);
                    assert(granted@[j] == u);
                }
                if u == txid {
                    assert(granted@[g] == u);
                }
                if granted@.contains(u) {
                    let j = granted@.index_of(u);
                    if j < g {
                        assert(granted_before[j] == u);
                    }
                }
            }
            assert forall|u: TxId| tx_has(shared@, u) implies if granted@.contains(u) {
                (#[trigger] tx_value(shared@, u)).is_fresh()
            } else {
                tx_value(shared@, u) == tx_value(shared0, u)
            } by {
                if u != txid {
                    assert(tx_has(shared_before, u));
                    assert(tx_value(shared@, u) == tx_value(shared_before, u));
                    assert(granted@.contains(u) == granted_before.contains(u));
                    if granted_before.contains(u) {
                        assert(tx_value(shared_before, u).is_fresh());
                    } else {
                        assert(tx_value(shared_before, u) == tx_value(shared0, u));
                    }
                } else {
                    assert(granted@[g] == u);
                }
            }
        }
    }
    proof {
        if queue@.len() > 0 {
            assert(queue@[0].1 is Exclusive);
        }
    }
    granted
}

/// Marks every holder of `shared` that is not older than `candidate` as asked
/// to give its lock up. Returns, youngest first, those that were not marked
/// before.
fn wound_shared(shared: &mut TxMap<SharedLockState>, candidate: &TxId) -> (preempted: Vec<TxId>)
    ensures
        final(shared)@.len() == old(shared)@.len(),
        tx_sorted(final(shared)@),
        forall|j: int|
            0 <= j < old(shared)@.len() ==> (#[trigger] final(shared)@[j]).0 == old(shared)@[j].0,
        forall|j: int|
            0 <= j < old(shared)@.len() ==> if old(shared)@[j].0.spec_lt(*candidate) {
                (#[trigger] final(shared)@[j]) == old(shared)@[j]
            } else {
                marked(old(shared)@[j].1, final(shared)@[j].1)
            },
        forall|u: TxId|
            preempted@.contains(u) <==> exists|j: int|
                0 <= j < old(shared)@.len() && (#[trigger] old(shared)@[j]).0 == u
                    && !u.spec_lt(*candidate) && !old(shared)@[j].1.preempting,
        forall|i: int, j: int|
            0 <= i < j < preempted@.len() ==> (#[trigger] preempted@[j]).spec_lt(
                #[trigger] preempted@[i],
            ),
{
    let ghost before = shared@;
    let mut preempted: Vec<TxId> = Vec::new();
    shared.sorted();
    let mut i: usize = shared.len();
    while i > 0 && !shared.key_at(i - 1).precedes(candidate)
        invariant
            i <= before.len(),
            shared@.len() == before.len(),
            tx_sorted(before),
            forall|j: int| 0 <= j < before.len() ==> (#[trigger] shared@[j]).0 == before[j].0,
            forall|j: int| 0 <= j < i ==> (#[trigger] shared@[j]) == before[j],
            forall|j: int|
                i <= j < before.len() ==> !(#[trigger] before[j]).0.spec_lt(*candidate) && marked(
                    before[j].1,
                    shared@[j].1,
                ),
            forall|u: TxId|
                preempted@.contains(u) <==> exists|j: int|
                    i <= j < before.len() && (#[trigger] before[j]).0 == u
                        && !before[j].1.preempting,
            forall|a: int, b: int|
                0 <= a < b < preempted@.len() ==> (#[trigger] preempted@[b]).spec_lt(
                    #[trigger] preempted@[a],
                ),
            forall|a: int, j: int|
                0 <= a < preempted@.len() && 0 <= j < i ==> (#[trigger] before[j]).0.spec_lt(
                    #[trigger] preempted@[a],
                ),
        decreases i,
    {
        i -= 1;
        let txid = shared.key_at(i);
        let ghost shared_before = shared@;
        let ghost preempted_before = preempted@;
        let state = shared.value_at_mut(i);
        let send = state.preempt();
        if send {
            preempted.push(txid);
        }
        proof {
            assert(txid == before[i as int].0);
            assert forall|j: int| 0 <= j < i implies (#[trigger] shared@[j]) == before[j] by {
                assert(shared_before[j] == before[j]);
            }
            assert forall|j: int| i <= j < before.len() implies !(#[trigger] before[j]).0.spec_lt(
                *candidate,
            ) && marked(before[j].1, shared@[j].1) by {
                if j > i {
                    assert(marked(before[j].1, shared_before[j].1));
                } else {
                    assert(shared_before[j] == before[j]);
                }
            }
            assert forall|u: TxId|
                preempted@.contains(u) <==> exists|j: int|
                    i <= j < before.len() && (#[trigger] before[j]).0 == u
                        && !before[j].1.preempting by {
                if send {
                    assert(preempted@ =~= preempted_before.push(txid));
                    if preempted@.contains(u) {
                        let a = preempted@.index_of(u);
                        if a < preempted_before.len() {
                            assert(preempted_before[a] == u);
                            assert(preempted_before.contains(u));
                        } else {
                            assert(before[i as int].0 == u);
                        }
                    }
                    if exists|j: int|
                        i <= j < before.len() && (#[trigger] before[j]).0 == u
                            && !before[j].1.preempting {
                        let j = choose|j: int|
                            i <= j < before.len() && (#[trigger] before[j]).0 == u
                                && !before[j].1.preempting;
                        if j == i {
                            assert(preempted@[preempted_before.len() as int] == u);
                        } else {
                            assert(preempted_before.contains(u));
                            let a = preempted_before.index_of(u);
                            assert(preempted@[a] == u);
                        }
                    }
                } else {
                    if exists|j: int|
                        i <= j < before.len() && (#[trigger] before[j]).0 == u
                            && !before[j].1.preempting {
                        let j = choose|j: int|
                            i <= j < before.len() && (#[trigger] before[j]).0 == u
                                && !before[j].1.preempting;
                        assert(j != i);
                    }
                }
            }
            assert forall|a: int, b: int| 0 <= a < b < preempted@.len() implies (
            #[trigger] preempted@[b]).spec_lt(#[trigger] preempted@[a]) by {
                if b == preempted_before.len() {
                    assert(before[i as int].0.spec_lt(preempted_before[a]));
                }
            }
            assert forall|a: int, j: int|
                0 <= a < preempted@.len() && 0 <= j < i implies (#[trigger] before[j]).0.spec_lt(
                #[trigger] preempted@[a],
            ) by {
                if a == preempted_before.len() {
                    assert(before[j].0.spec_lt(before[i as int].0));
                }
            }
        }
    }
    proof {
        assert forall|j: int| 0 <= j < before.len() implies if before[j].0.spec_lt(*candidate) {
            (#[trigger] shared@[j]) == before[j]
        } else {
            marked(before[j].1, shared@[j].1)
        } by {
            if j < i {
                if j < i - 1 {
                    assert(before[j].0.spec_lt(before[i - 1].0));
                }
                TxId::lemma_total_order(before[j].0, before[i - 1].0, *candidate);
            }
        }
        assert forall|u: TxId|
            preempted@.contains(u) <==> exists|j: int|
                0 <= j < before.len() && (#[trigger] before[j]).0 == u && !u.spec_lt(*candidate)
                    && !before[j].1.preempting by {
            if exists|j: int|
                0 <= j < before.len() && (#[trigger] before[j]).0 == u && !u.spec_lt(*candidate)
                    && !before[j].1.preempting {
                let j = choose|j: int|
                    0 <= j < before.len() && (#[trigger] before[j]).0 == u && !u.spec_lt(
                        *candidate,
                    ) && !before[j].1.preempting;
                if j < i {
                    if j < i - 1 {
                        assert(before[j].0.spec_lt(before[i - 1].0));
                    }
                    TxId::lemma_total_order(before[j].0, before[i - 1].0, *candidate);
                }
            }
        }
    }
    shared.sorted();
    preempted
}

/// A holder is asked to give up its lock once: who was asked by one pass over
/// the queue is not asked by the next.
pub proof fn lemma_preempted_once(
    before: HeldLocks,
    between: HeldLocks,
    after: HeldLocks,
    first_granted: Seq<TxId>,
    first_preempted: Seq<TxId>,
    second_granted: Seq<TxId>,
    second_preempted: Seq<TxId>,
    holder: TxId,
)
    requires
        preempted_are(before, between, first_granted, first_preempted),
        preempted_are(between, after, second_granted, second_preempted),
        first_preempted.contains(holder),
    ensures
        !second_preempted.contains(holder),
{
}

/// What is left of the held locks `before` once `txid` gave its lock up.
pub open spec fn given_up(before: HeldLocks, after: HeldLocks, txid: TxId) -> bool {
    match before {
        HeldLocks::Free => false,
        HeldLocks::Shared(held) => {
            &&& tx_has(held@, txid)
            &&& if held@.len() == 1 {
                after is Free
            } else {
                after matches HeldLocks::Shared(rest) && rest@ == held@.remove(
                    tx_index_of(held@, txid),
                ) && tx_removed(held@, rest@, txid)
            }
        },
        HeldLocks::Exclusive(holder, _, _) => holder == txid && after is Free,
    }
}

/// What `txid` had staged under the lock that it holds.
pub open spec fn staged_by(held: HeldLocks, txid: TxId) -> LockData {
    LockData {
        shared: held.shared_of(txid),
        exclusive: match held {
            HeldLocks::Exclusive(_, _, exclusive) => Some(exclusive),
            _ => None,
        },
    }
}

/// The lock table of one node.
#[derive(Debug, PartialEq, Eq)]
pub struct Lock {
    queue: TxMap<LockKind>,
    held: HeldLocks,
}

impl Lock {
    /// The requests that wait for a lock, oldest transaction first.
    pub closed spec fn queued(&self) -> Seq<(TxId, LockKind)> {
        self.queue@
    }

    /// The locks that are held.
    pub closed spec fn held(&self) -> HeldLocks {
        self.held
    }

    /// Where shared locks are held, somebody holds one.
    pub open spec fn wf(&self) -> bool {
        self.held() matches HeldLocks::Shared(held) ==> held@.len() > 0
    }

    /// A lock table with nothing queued and nothing held.
    pub fn new() -> (lock: Lock)
        ensures
            lock.wf(),
            lock.queued() == Seq::<(TxId, LockKind)>::empty(),
            lock.held() is Free,
    {
        Lock { queue: TxMap::new(), held: HeldLocks::Free }
    }

    /// Takes the lock of `txid` out of the held locks.
    fn give_up(&mut self, txid: &TxId) -> (data: Option<LockData>)
        requires
            old(self).wf(),
        ensures
            final(self).wf(),
            final(self).queued() == old(self).queued(),
            match data {
                Some(d) => {
                    &&& old(self).held().holds(*txid)
                    &&& d == staged_by(old(self).held(), *txid)
                    &&& given_up(old(self).held(), final(self).held(), *txid)
                },
                None => !old(self).held().holds(*txid) && *final(self) == *old(self),
            },
    {
        let mut held = HeldLocks::Free;
        core::mem::swap(&mut self.held, &mut held);
        match held {
            HeldLocks::Free => None,
            HeldLocks::Shared(mut shared) => {
                let ghost before = shared@;
                let data = shared.remove(txid);
                if shared.len() != 0 {
                    self.held = HeldLocks::Shared(shared);
                }
                match data {
                    Some(state) => {
                        proof {
                            assert(before.remove(tx_index_of(before, *txid)).len() == before.len()
                                - 1);
                        }
                        Some(LockData { shared: state, exclusive: None })
                    },
                    None => None,
                }
            },
            HeldLocks::Exclusive(holder, shared, exclusive) => {
                if holder == *txid {
                    proof {
                        assert(old(self).held().holders()[0].0 == *txid);
                        crate::tx_map::lemma_index_unique(old(self).held().holders(), 0);
                    }
                    Some(LockData { shared, exclusive: Some(exclusive) })
                } else {
                    proof {
                        if old(self).held().holds(*txid) {
                            let j = tx_index_of(old(self).held().holders(), *txid);
                            assert(j == 0);
                        }
                    }
                    self.held = HeldLocks::Exclusive(holder, shared, exclusive);
                    None
                }
            },
        }
    }

    /// Whether the table can take `message`: a lock is asked for by a
    /// transaction that does not wait for one already, and a lock is aborted
    /// or released by a transaction that holds one. Any other message can be
    /// taken: it comes back unhandled.
    pub open spec fn admits(&self, message: Message) -> bool {
        match message {
            Message::Lock { txid, .. } => !tx_has(self.queued(), txid),
            Message::Abort { txid } => self.held().holds(txid),
            Message::Release { txid, .. } => self.held().holds(txid),
            _ => true,
        }
    }

    /// Whether `txid` waits for a lock.
    pub fn is_queued(&self, txid: &TxId) -> (queued: bool)
        ensures
            queued == tx_has(self.queued(), *txid),
    {
        self.queue.contains_key(txid)
    }

    /// Whether `txid` holds a lock.
    pub fn holds(&self, txid: &TxId) -> (held: bool)
        ensures
            held == self.held().holds(*txid),
    {
        self.held.shared(txid).is_some()
    }

    /// Whether the table can take `message`: see [`Lock::admits`].
    pub fn can_take(&self, message: &Message) -> (admitted: bool)
        ensures
            admitted == self.admits(*message),
    {
        match message {
            Message::Lock { txid, .. } => !self.is_queued(txid),
            Message::Abort { txid } => self.holds(txid),
            Message::Release { txid, .. } => self.holds(txid),
            _ => true,
        }
    }

    /// Whether this is the table `before` once it has taken note of
    /// `message`, which it can take, with `event` as what came of it. A
    /// request for a lock joins the queue. A lock that is aborted or released
    /// is given up, with what its holder had staged. Any other message comes
    /// back unhandled.
    pub open spec fn accepted(&self, before: Lock, message: Message, event: LockEvent) -> bool {
        match message {
            Message::Lock { txid, kind } => {
                &&& event == (LockEvent::Queued { txid, kind })
                &&& self.held() == before.held()
                &&& tx_inserted(before.queued(), self.queued(), txid, kind)
                &&& self.queued() == before.queued().insert(
                    tx_rank(before.queued(), txid),
                    (txid, kind),
                )
            },
            Message::Abort { txid } => {
                &&& event == (LockEvent::Aborted {
                    txid,
                    data: staged_by(before.held(), txid),
                })
                &&& given_up(before.held(), self.held(), txid)
                &&& self.queued() == before.queued()
            },
            Message::Release { txid, basis } => {
                &&& event == (LockEvent::Released {
                    txid,
                    data: staged_by(before.held(), txid),
                    basis,
                })
                &&& given_up(before.held(), self.held(), txid)
                &&& self.queued() == before.queued()
            },
            _ => event == LockEvent::Unhandled(message) && *self == before,
        }
    }

    /// Takes note of a message that asks for a lock or gives one up, and
    /// grants nothing yet: see [`Lock::accepted`]. A request by a transaction
    /// that waits already, and an abort or release by a transaction that
    /// holds nothing, break the protocol and are left out.
    pub fn accept(&mut self, message: Message) -> (event: LockEvent)
        requires
            old(self).wf(),
            old(self).admits(message),
        ensures
            final(self).wf(),
            final(self).accepted(*old(self), message, event),
    {
        match message {
            Message::Lock { txid, kind } => {
                let _ = self.queue.insert_new(txid, kind);
                LockEvent::Queued { txid, kind }
            },
            Message::Abort { txid } => {
                match self.give_up(&txid) {
                    Some(data) => LockEvent::Aborted { txid, data },
                    None => vstd::pervasive::unreached(),
                }
            },
            Message::Release { txid, basis } => {
                match self.give_up(&txid) {
                    Some(data) => LockEvent::Released { txid, data, basis },
                    None => vstd::pervasive::unreached(),
                }
            },
            other => LockEvent::Unhandled(other),
        }
    }

    /// Whether this is the table `before` once it has handled `message`,
    /// which it can take, with `event` as what came of the message and `out`
    /// as what the pass over the queue gave: the message is taken note of,
    /// and then what can be granted is granted, and who must be wounded is
    /// wounded.
    pub open spec fn handled(&self, before: Lock, message: Message, event: LockEvent, out: Granted) -> bool {
        exists|noted: Lock|
            {
                &&& #[trigger] noted.accepted(before, message, event)
                &&& noted.wf()
                &&& granted_state(
                    noted.queued(),
                    noted.held(),
                    self.held(),
                    self.queued(),
                    out.granted@,
                )
                &&& preempted_are(noted.held(), self.held(), out.granted@, out.preempted@)
            }
    }

    /// Handles the messages that ask for a lock and that give one up, and
    /// then runs the queue: see [`Lock::accept`] and
    /// [`Lock::process_queue`]. Returns what came of the message, the
    /// transactions that were granted a lock, and the holders that are to be
    /// asked to give theirs up. A message that the table cannot take breaks
    /// the protocol and is left out: see [`Lock::admits`].
    pub fn handle(&mut self, message: Message) -> (out: (LockEvent, Granted))
        requires
            old(self).wf(),
            old(self).admits(message),
        ensures
            final(self).wf(),
            final(self).handled(*old(self), message, out.0, out.1),
    {
        let event = self.accept(message);
        let ghost noted = *self;
        let granted = self.process_queue();
        proof {
            assert(noted.accepted(*old(self), message, event));
        }
        (event, granted)
    }

    /// Grants what can be granted, and wounds who must be wounded.
    ///
    /// The requests are taken from the front of the queue, oldest transaction
    /// first. Where no lock is held, the first request is granted, and where it
    /// asked for a shared lock, so are the requests for shared locks that
    /// follow it. Beside shared locks, requests for shared locks are granted up
    /// to the first request for the exclusive lock. Beside the exclusive lock
    /// nothing is granted. The request that then stands at the head of the
    /// queue wounds the holders that stand in its way: each is marked, and is
    /// reported the first time only.
    pub fn process_queue(&mut self) -> (out: Granted)
        requires
            old(self).wf(),
        ensures
            final(self).wf(),
            granted_state(
                old(self).queued(),
                old(self).held(),
                final(self).held(),
                final(self).queued(),
                out.granted@,
            ),
            preempted_are(old(self).held(), final(self).held(), out.granted@, out.preempted@),
    {
        self.queue.sorted();
        let ghost queue0 = self.queue@;
        let ghost held0 = self.held;
        let mut held = HeldLocks::Free;
        core::mem::swap(&mut self.held, &mut held);
        proof {
            assert(queue0.skip(0) =~= queue0);
        }
        let mut shared = match held {
            HeldLocks::Exclusive(holder, mut state, staged) => {
                let mut preempted: Vec<TxId> = Vec::new();
                if self.queue.len() > 0 {
                    let candidate = self.queue.key_at(0);
                    if candidate.precedes(&holder) {
                        if state.preempt() {
                            preempted.push(holder);
                        }
                    }
                }
                self.held = HeldLocks::Exclusive(holder, state, staged);
                let granted: Vec<TxId> = Vec::new();
                proof {
                    assert(granted@ =~= granted_keys(queue0, 0));
                    crate::tx_map::lemma_index_unique(held0.holders(), 0);
                    crate::tx_map::lemma_index_unique(self.held.holders(), 0);
                    assert forall|u: TxId| self.held.holds(u) <==> held0.holds(u) by {
                        if self.held.holds(u) {
                            assert(held0.holders()[0].0 == u);
                        }
                        if held0.holds(u) {
                            assert(self.held.holders()[0].0 == u);
                        }
                    }
                    assert forall|u: TxId| preempted@.contains(u) implies u == holder by {
                        let j = preempted@.index_of(u);
                    }
                    if preempted@.len() > 0 {
                        assert(preempted@[0] == holder);
                    }
                }
                return Granted { granted, preempted };
            },
            HeldLocks::Free => {
                if self.queue.len() == 0 {
                    let granted: Vec<TxId> = Vec::new();
                    let preempted: Vec<TxId> = Vec::new();
                    proof {
                        assert(granted@ =~= granted_keys(queue0, 0));
                    }
                    return Granted { granted, preempted };
                }
                if *self.queue.value_at(0) == LockKind::Exclusive {
                    let entry = self.queue.remove_at(0);
                    self.held = HeldLocks::Exclusive(
                        entry.0,
                        SharedLockState::fresh(),
                        ExclusiveLockState::Unchanged,
                    );
                    let mut granted: Vec<TxId> = Vec::new();
                    granted.push(entry.0);
                    let preempted: Vec<TxId> = Vec::new();
                    proof {
                        assert(granted@ =~= granted_keys(queue0, 1));
                        assert(self.queue@ =~= queue0.skip(1));
                        assert(granted@[0] == entry.0);
                        crate::tx_map::lemma_index_unique(self.held.holders(), 0);
                        assert forall|u: TxId| self.held.holds(u) <==> granted@.contains(u) by {
                            if self.held.holds(u) {
                                assert(granted@[0] == u);
                            }
                            if granted@.contains(u) {
                                let j = granted@.index_of(u);
                                assert(self.held.holders()[0].0 == u);
                            }
                        }
                    }
                    return Granted { granted, preempted };
                }
                proof {
                    lemma_shared_prefix_step(queue0);
                }
                TxMap::new()
            },
            HeldLocks::Shared(shared) => shared,
        };
        let ghost shared0 = shared@;
        proof {
            assert(shared0 == held0.holders());
        }
        let granted = grant_shared(&mut self.queue, &mut shared);
        let ghost mid = shared@;
        let ghost count = shared_prefix(queue0);
        let mut preempted: Vec<TxId> = Vec::new();
        if self.queue.len() > 0 {
            let candidate = self.queue.key_at(0);
            preempted = wound_shared(&mut shared, &candidate);
        }
        self.held = HeldLocks::Shared(shared);
        proof {
            let after = self.held.holders();
            let blocked = if self.queue@.len() > 0 {
                Some(self.queue@[0].0)
            } else {
                None
            };
            assert(after.len() == mid.len());
            assert forall|j: int| 0 <= j < mid.len() implies (#[trigger] after[j]).0 == mid[j].0 by {}
            assert forall|u: TxId| tx_has(after, u) <==> tx_has(mid, u) by {
                if tx_has(after, u) {
                    let j = tx_index_of(after, u);
                    assert(mid[j].0 == u);
                }
                if tx_has(mid, u) {
                    let j = tx_index_of(mid, u);
                    assert(after[j].0 == u);
                }
            }
            // Who was granted a lock is older than the request that stays blocked.
            assert forall|u: TxId| granted@.contains(u) && blocked is Some implies u.spec_lt(
                blocked->Some_0,
            ) by {
                let x = granted@.index_of(u);
                assert(queue0[x].0 == u);
                assert(self.queue@[0] == queue0[count as int]);
                assert(queue0[x].0.spec_lt(queue0[count as int].0));
            }
            assert forall|u: TxId| self.held.holds(u) implies holder_after(
                held0,
                granted@,
                blocked,
                false,
                u,
                #[trigger] self.held.shared_of(u),
            ) by {
                let j = tx_index_of(after, u);
                assert(after[j].0 == u && mid[j].0 == u);
                crate::tx_map::lemma_index_unique(mid, j);
                crate::tx_map::lemma_index_unique(after, j);
                assert(tx_value(mid, u) == mid[j].1);
                assert(self.held.shared_of(u) == after[j].1);
                if granted@.contains(u) {
                    assert(tx_value(mid, u).is_fresh());
                } else {
                    assert(tx_has(shared0, u));
                    assert(tx_value(mid, u) == tx_value(shared0, u));
                    assert(held0.shared_of(u) == tx_value(shared0, u));
                }
            }
            assert forall|u: TxId|
                preempted@.contains(u) <==> {
                    &&& held0.holds(u)
                    &&& !granted@.contains(u)
                    &&& !held0.shared_of(u).preempting
                    &&& self.held.holds(u)
                    &&& self.held.shared_of(u).preempting
                } by {
                if preempted@.contains(u) {
                    let j = choose|j: int|
                        0 <= j < mid.len() && (#[trigger] mid[j]).0 == u && !u.spec_lt(
                            blocked->Some_0,
                        ) && !mid[j].1.preempting;
                    crate::tx_map::lemma_index_unique(mid, j);
                    crate::tx_map::lemma_index_unique(after, j);
                    assert(after[j].0 == u);
                    assert(tx_has(mid, u));
                    assert(tx_value(mid, u) == mid[j].1);
                    assert(!granted@.contains(u));
                    assert(tx_value(mid, u) == tx_value(shared0, u));
                    assert(held0.shared_of(u) == tx_value(shared0, u));
                    assert(self.held.shared_of(u) == after[j].1);
                }
                if held0.holds(u) && !granted@.contains(u) && !held0.shared_of(u).preempting
                    && self.held.holds(u) && self.held.shared_of(u).preempting {
                    let j = tx_index_of(after, u);
                    assert(after[j].0 == u && mid[j].0 == u);
                    crate::tx_map::lemma_index_unique(mid, j);
                    crate::tx_map::lemma_index_unique(after, j);
                    assert(tx_value(mid, u) == mid[j].1);
                    assert(tx_value(mid, u) == tx_value(shared0, u));
                    assert(held0.shared_of(u) == tx_value(shared0, u));
                    assert(self.held.shared_of(u) == after[j].1);
                    assert(after[j] != mid[j]);
                }
            }
            // Somebody holds a lock now.
            if held0 is Shared {
                assert(tx_has(shared0, shared0[0].0));
            } else {
                assert(granted@[0] == queue0[0].0);
                assert(granted@.contains(queue0[0].0));
            }
            if after.len() == 0 {
                if held0 is Shared {
                    assert(tx_has(mid, shared0[0].0));
                    let j = tx_index_of(mid, shared0[0].0);
                } else {
                    assert(tx_has(mid, queue0[0].0));
                    let j = tx_index_of(mid, queue0[0].0);
                }
            }
            assert forall|u: TxId| self.held.holds(u) <==> held0.holds(u) || granted@.contains(u) by {
                assert(tx_has(after, u) <==> tx_has(mid, u));
            }
        }
        Granted { granted, preempted }
    }

    /// The number of holders.
    pub fn holder_count(&self) -> (n: usize)
        ensures
            n == self.held().holders().len(),
    {
        self.held.holder_count()
    }

    /// The `i`-th holder, counted from the oldest.
    pub fn holder_txid(&self, i: usize) -> (txid: TxId)
        requires
            i < self.held().holders().len(),
        ensures
            txid == self.held().holders()[i as int].0,
    {
        self.held.holder_txid(i)
    }

    /// What the `i`-th holder has staged as a holder of a shared lock.
    pub fn holder_state(&self, i: usize) -> (state: &SharedLockState)
        requires
            i < self.held().holders().len(),
        ensures
            *state == self.held().holders()[i as int].1,
    {
        self.held.holder_state(i)
    }

    /// What the `i`-th holder has staged as a holder of a shared lock, to
    /// change it.
    pub fn holder_state_mut(&mut self, i: usize) -> (state: &mut SharedLockState)
        requires
            i < old(self).held().holders().len(),
        ensures
            *state == old(self).held().holders()[i as int].1,
            final(self).held().holders() == old(self).held().holders().update(
                i as int,
                (old(self).held().holders()[i as int].0, *final(state)),
            ),
            final(self).held().same_shape(&old(self).held()),
            final(self).queued() == old(self).queued(),
            old(self).wf() ==> final(self).wf(),
    {
        self.held.holder_state_mut(i)
    }

    /// What the holder `txid` of the exclusive lock has staged.
    pub fn exclusive_lock(&self, txid: &TxId) -> (state: Option<&ExclusiveLockState>)
        ensures
            match state {
                Some(s) => self.held().holds_exclusive(*txid) && *s == self.held()->Exclusive_2,
                None => !self.held().holds_exclusive(*txid),
            },
    {
        self.held.exclusive(txid)
    }

    /// What the holder `txid` of the exclusive lock has staged, to change it.
    pub fn exclusive_lock_mut(&mut self, txid: &TxId) -> (state: Option<&mut ExclusiveLockState>)
        ensures
            final(self).queued() == old(self).queued(),
            match state {
                Some(s) => {
                    &&& old(self).held().holds_exclusive(*txid)
                    &&& *s == old(self).held()->Exclusive_2
                    &&& final(self).held() == HeldLocks::Exclusive(
                        *txid,
                        old(self).held()->Exclusive_1,
                        *final(s),
                    )
                },
                None => !old(self).held().holds_exclusive(*txid) && *final(self) == *old(self),
            },
    {
        self.held.exclusive_mut(txid)
    }

    /// What the holder `txid` has staged as a holder of a shared lock.
    pub fn shared_lock(&self, txid: &TxId) -> (state: Option<&SharedLockState>)
        ensures
            match state {
                Some(s) => self.held().holds(*txid) && *s == self.held().shared_of(*txid),
                None => !self.held().holds(*txid),
            },
    {
        self.held.shared(txid)
    }

    /// What the holder `txid` has staged as a holder of a shared lock, to
    /// change it.
    pub fn shared_lock_mut(&mut self, txid: &TxId) -> (state: Option<&mut SharedLockState>)
        ensures
            final(self).queued() == old(self).queued(),
            match state {
                Some(s) => {
                    &&& old(self).held().holds(*txid)
                    &&& *s == old(self).held().shared_of(*txid)
                    &&& final(self).held().holders() == old(self).held().holders().update(
                        tx_index_of(old(self).held().holders(), *txid),
                        (*txid, *final(s)),
                    )
                    &&& old(self).held() is Shared ==> final(self).held() is Shared
                    &&& old(self).held() matches HeldLocks::Exclusive(t, _, e) ==> final(self).held()
                        matches HeldLocks::Exclusive(t2, _, e2) && t2 == t && e2 == e
                },
                None => !old(self).held().holds(*txid) && *final(self) == *old(self),
            },
    {
        self.held.shared_mut(txid)
    }
}

} // verus!
