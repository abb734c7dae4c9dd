//! The reactive node: a lockable cell that holds a variable or a definition,
//! and tells its subscribers whenever its value changes.

pub mod definition;
pub mod held_locks;

use crate::actor::{Actor, Address, Context, Envelope, Version};
use crate::address_map::{AddressMap, AddressSet};
use crate::basis::{later, stamp_latest, stamp_merge, stamp_prec_eq};
use crate::lock::{granted_state, preempted_are, Granted, Lock, LockData, LockEvent};
use crate::message::{
    BasisStamp, Iteration, LockKind, Message, NodeKind, ReactiveConfiguration, Stamp, StampedValue,
    StampedValueView, TxId, Violation,
};
use crate::lock::{given_up, staged_by};
use crate::tx_map::{tx_has, tx_index_of, tx_inserted, tx_rank};
use definition::{
    all_ancestors, batch_applied, computed, defined, redefined, update_added, Definition,
};
use held_locks::{ExclusiveLockState, HeldLocks, Read, SharedLockState};
use vstd::prelude::*;

verus! {

/// A reactive node.
#[derive(Debug, PartialEq, Eq)]
pub struct Reactive {
    /// Who waits for a lock on the node and who holds one.
    lock: Lock,
    /// The definition that derives the value from the values of other nodes.
    /// A node without a definition is a variable: its value is written.
    definition: Option<Definition>,
    /// The current value. A definition has none until its inputs have all
    /// propagated a value.
    value: Option<StampedValue>,
    /// The stamps of the transactions that have read the current value.
    reads: BasisStamp,
    /// The addresses that are told whenever the value changes.
    subscribers: AddressSet,
    version: Version,
    iteration: Iteration,
    /// Whether the value was set and has not been reported since: see
    /// [`Reactive::next_value`].
    changed: bool,
}

/// Whether `envelope` carries the new value `value` of the node at `me` to the
/// subscriber `target`.
pub open spec fn is_propagate(
    envelope: Envelope,
    me: Address,
    target: Address,
    value: StampedValueView,
) -> bool {
    &&& envelope.sender == me
    &&& envelope.target == target
    &&& envelope.message matches Message::Propagate { sender, value: carried }
    &&& sender == me
    &&& carried@ == value
}

/// Whether `envelope` answers the read of `txid` on the node at `me` with
/// `value`.
pub open spec fn is_read_result(
    envelope: Envelope,
    me: Address,
    txid: TxId,
    value: StampedValueView,
) -> bool {
    &&& envelope.sender == me
    &&& envelope.target == txid.address
    &&& envelope.message matches Message::ReadResult { txid: reader, address, value: carried }
    &&& reader == txid
    &&& address == me
    &&& carried@ == value
}

/// Whether `envelope` asks `txid` to give up its lock on the node at `me`.
pub open spec fn is_preempt(envelope: Envelope, me: Address, txid: TxId) -> bool {
    envelope == (Envelope { sender: me, target: txid.address, message: Message::Preempt { txid } })
}

/// Whether `envelope` tells `txid` that it now holds a lock on `node`, which
/// lives at `me`.
pub open spec fn is_grant(envelope: Envelope, me: Address, txid: TxId, node: Reactive) -> bool {
    &&& envelope.sender == me
    &&& envelope.target == txid.address
    &&& envelope.message matches Message::LockGranted { txid: holder, address, node_kind, version }
    &&& holder == txid
    &&& address == me
    &&& version == node.version()
    &&& match node_kind {
        NodeKind::Variable { iteration } => node.definition() is None && iteration
            == node.iteration(),
        NodeKind::Definition { ancestors } => node.definition() is Some && ancestors@
            == node.ancestors(),
    }
}

/// Whether `sent` asks each of `preempted` to give up its lock, and then tells
/// each of `granted` that it holds one.
pub open spec fn lock_messages(
    sent: Seq<Envelope>,
    me: Address,
    preempted: Seq<TxId>,
    granted: Seq<TxId>,
    node: Reactive,
) -> bool {
    &&& sent.len() == preempted.len() + granted.len()
    &&& forall|i: int| 0 <= i < preempted.len() ==> is_preempt(#[trigger] sent[i], me, preempted[i])
    &&& forall|i: int|
        0 <= i < granted.len() ==> is_grant(
            #[trigger] sent[preempted.len() + i],
            me,
            granted[i],
            node,
        )
}

/// Whether the holder with `state` waits for a value that a value stamped
/// `basis` provides.
pub open spec fn wakes(state: SharedLockState, basis: Stamp, ancestors: Set<Address>) -> bool {
    state.read matches Some(Read::Pending(wanted)) && stamp_prec_eq(wanted@, basis, ancestors)
}

/// The holders, oldest first, whose pending reads a value stamped `basis`
/// answers.
pub open spec fn woken(
    holders: Seq<(TxId, SharedLockState)>,
    basis: Stamp,
    ancestors: Set<Address>,
) -> Seq<TxId>
    decreases holders.len(),
{
    if holders.len() == 0 {
        Seq::empty()
    } else {
        let earlier = woken(holders.drop_last(), basis, ancestors);
        if wakes(holders.last().1, basis, ancestors) {
            earlier.push(holders.last().0)
        } else {
            earlier
        }
    }
}

/// Whether `after` is the state of a holder `before` once a value stamped
/// `basis` was published: a read that waited for it is complete.
pub open spec fn holder_woken(
    before: SharedLockState,
    after: SharedLockState,
    basis: Stamp,
    ancestors: Set<Address>,
) -> bool {
    &&& after.preempting == before.preempting
    &&& after.subscription_updates == before.subscription_updates
    &&& after.read == if wakes(before, basis, ancestors) {
        Some(Read::Complete)
    } else {
        before.read
    }
}

/// Whether the node `before`, which lives at `me`, becomes `after` and sends
/// `sent` by publishing `value`. The stamps of those who read the value
/// before go into the stamp of the new value; the node's iteration catches up
/// with what the stamp says of the node itself; every subscriber is sent the
/// value, and so is every holder whose read waited for it.
pub open spec fn published(
    before: Reactive,
    after: Reactive,
    me: Address,
    value: StampedValueView,
    sent: Seq<Envelope>,
) -> bool {
    let stamped = StampedValueView {
        value: value.value,
        basis: stamp_merge(value.basis, before.reads()),
    };
    let subscribers = before.subscribers().members();
    let holders = before.lock().held().holders();
    let answered = woken(holders, stamped.basis, before.ancestors());
    &&& after.current_value() matches Some(v) && v@ == stamped
    &&& after.reads() == Map::<Address, nat>::empty()
    &&& after.iteration().0 == later(before.iteration().0 as nat, stamp_latest(stamped.basis, me))
    &&& after.changed()
    &&& after.definition() == before.definition()
    &&& after.subscribers() == before.subscribers()
    &&& after.version() == before.version()
    &&& after.lock().queued() == before.lock().queued()
    &&& after.lock().held().same_shape(&before.lock().held())
    &&& forall|i: int|
        0 <= i < holders.len() ==> holder_woken(
            holders[i].1,
            (#[trigger] after.lock().held().holders()[i]).1,
            stamped.basis,
            before.ancestors(),
        )
    &&& sent.len() == subscribers.len() + answered.len()
    &&& forall|i: int|
        0 <= i < subscribers.len() ==> is_propagate(#[trigger] sent[i], me, subscribers[i], stamped)
    &&& forall|i: int|
        0 <= i < answered.len() ==> is_read_result(
            #[trigger] sent[subscribers.len() + i],
            me,
            answered[i],
            stamped,
        )
}

/// Whether the node `before`, which lives at `me`, becomes `after` and sends
/// `sent` by one pass over its queue of lock requests.
pub open spec fn locks_granted(
    before: Reactive,
    after: Reactive,
    me: Address,
    sent: Seq<Envelope>,
) -> bool {
    &&& after.definition() == before.definition()
    &&& after.current_value() == before.current_value()
    &&& after.reads() == before.reads()
    &&& after.subscribers() == before.subscribers()
    &&& after.version() == before.version()
    &&& after.iteration() == before.iteration()
    &&& after.changed() == before.changed()
    &&& exists|granted: Seq<TxId>, preempted: Seq<TxId>|
        {
            &&& #[trigger] lock_messages(sent, me, preempted, granted, after)
            &&& granted_state(
                before.lock().queued(),
                before.lock().held(),
                after.lock().held(),
                after.lock().queued(),
                granted,
            )
            &&& preempted_are(before.lock().held(), after.lock().held(), granted, preempted)
        }
}

/// Whether `after` is `before` but for the lock table.
pub open spec fn same_cell(before: Reactive, after: Reactive) -> bool {
    &&& after.definition() == before.definition()
    &&& after.current_value() == before.current_value()
    &&& after.reads() == before.reads()
    &&& after.subscribers() == before.subscribers()
    &&& after.version() == before.version()
    &&& after.iteration() == before.iteration()
    &&& after.changed() == before.changed()
}

/// Whether `after` is `before` with the stamp `basis` added to the reads of
/// the current value where `read` is a completed read, and unchanged
/// otherwise.
pub open spec fn read_noted(
    before: Reactive,
    after: Reactive,
    read: Option<Read>,
    basis: Stamp,
) -> bool {
    &&& after.lock() == before.lock()
    &&& after.definition() == before.definition()
    &&& after.current_value() == before.current_value()
    &&& after.subscribers() == before.subscribers()
    &&& after.version() == before.version()
    &&& after.iteration() == before.iteration()
    &&& after.changed() == before.changed()
    &&& after.reads() == if read matches Some(Read::Complete) {
        stamp_merge(before.reads(), basis)
    } else {
        before.reads()
    }
}

/// Whether `after` is `before` with the changes `changes` made to the
/// subscribers: an address mapped to `true` is a subscriber, one mapped to
/// `false` is none, and any other address is what it was.
pub open spec fn subscriptions_applied(
    before: Reactive,
    after: Reactive,
    changes: Map<Address, bool>,
) -> bool {
    &&& after.lock() == before.lock()
    &&& after.definition() == before.definition()
    &&& after.current_value() == before.current_value()
    &&& after.reads() == before.reads()
    &&& after.version() == before.version()
    &&& after.iteration() == before.iteration()
    &&& after.changed() == before.changed()
    &&& after.subscribers().counted()
    &&& forall|a: Address|
        #![trigger after.subscribers()@.contains(a)]
        after.subscribers()@.contains(a) <==> if changes.contains_key(a) {
            changes[a]
        } else {
            before.subscribers()@.contains(a)
        }
}

/// Whether `after` is `before` with the definition that `config` asks for and
/// the next version, and `fresh` is the value that this gives the node at
/// once: the first value of a variable, or what a definition that was told to
/// evaluate another expression evaluates to.
pub open spec fn redefined_node(
    before: Reactive,
    after: Reactive,
    config: ReactiveConfiguration,
    fresh: Option<StampedValue>,
) -> bool {
    &&& after.lock() == before.lock()
    &&& after.current_value() == before.current_value()
    &&& after.reads() == before.reads()
    &&& after.subscribers() == before.subscribers()
    &&& after.iteration() == before.iteration()
    &&& after.changed()
    &&& after.version().0 == before.version().0 + 1
    &&& match config {
        ReactiveConfiguration::Variable { value } => after.definition() is None && fresh == Some(
            value,
        ),
        ReactiveConfiguration::Definition { expr, inputs } => match before.definition() {
            None => {
                &&& after.definition() matches Some(made)
                &&& defined(made, expr@, inputs@)
                &&& fresh is None
            },
            Some(existing) => {
                &&& after.definition() matches Some(changed)
                &&& redefined(existing, changed, expr@, inputs@)
                &&& computed(changed, fresh)
            },
        },
    }
}

/// Whether the node `before`, at `me`, becomes `after` and sends `sent` by
/// taking on the configuration `config`.
pub open spec fn reconfigured(
    before: Reactive,
    after: Reactive,
    me: Address,
    config: ReactiveConfiguration,
    sent: Seq<Envelope>,
) -> bool {
    exists|mid: Reactive, fresh: Option<StampedValue>|
        {
            &&& #[trigger] redefined_node(before, mid, config, fresh)
            &&& match fresh {
                Some(value) => published(mid, after, me, value@, sent),
                None => after == mid && sent.len() == 0,
            }
        }
}

/// Whether the node `before`, at `me`, becomes `after` and sends `sent` when a
/// lock is released with the stamp `basis`, under which `shared` and
/// `exclusive` were staged. A completed read is noted; then what was staged
/// under the exclusive lock is done; then the subscribers are changed.
pub open spec fn changes_applied(
    before: Reactive,
    after: Reactive,
    me: Address,
    basis: BasisStamp,
    shared: SharedLockState,
    exclusive: ExclusiveLockState,
    sent: Seq<Envelope>,
) -> bool {
    exists|noted: Reactive, done: Reactive|
        {
            &&& #[trigger] read_noted(before, noted, shared.read, basis@)
            &&& match exclusive {
                ExclusiveLockState::Unchanged => done == noted && sent.len() == 0,
                ExclusiveLockState::Retire => done == noted && sent.len() == 0,
                ExclusiveLockState::Write(value) => published(
                    noted,
                    done,
                    me,
                    StampedValueView { value: value@, basis: basis@ },
                    sent,
                ),
                ExclusiveLockState::Update(config) => reconfigured(noted, done, me, config, sent),
            }
            &&& #[trigger] subscriptions_applied(done, after, shared.subscription_updates@)
        }
}

/// Whether the lock table `after` is `before`, but that the holder `txid` has
/// `state` staged as a holder of a shared lock.
pub open spec fn staged_shared(before: Lock, after: Lock, txid: TxId, state: SharedLockState) -> bool {
    &&& after.queued() == before.queued()
    &&& after.held().same_shape(&before.held())
    &&& after.held().holders() == before.held().holders().update(
        tx_index_of(before.held().holders(), txid),
        (txid, state),
    )
}

/// Whether the lock table `after` is `before`, but that the holder `txid` of
/// the exclusive lock has `staged` staged for the node.
pub open spec fn staged_exclusive(
    before: Lock,
    after: Lock,
    txid: TxId,
    staged: ExclusiveLockState,
) -> bool {
    &&& after.queued() == before.queued()
    &&& after.held() == HeldLocks::Exclusive(txid, before.held()->Exclusive_1, staged)
}

/// What a write of `value` makes of what is staged under the exclusive lock
/// of a variable: the write replaces an earlier write, and goes into the
/// first value of a variable that is staged. A definition, staged or not,
/// cannot be written, nor a node whose retirement is staged.
pub open spec fn write_staged(
    is_definition: bool,
    staged: ExclusiveLockState,
    value: crate::expr::Value,
) -> Result<ExclusiveLockState, Violation> {
    if is_definition {
        Err(Violation::WriteToDefinition)
    } else {
        match staged {
            ExclusiveLockState::Unchanged => Ok(ExclusiveLockState::Write(value)),
            ExclusiveLockState::Write(_) => Ok(ExclusiveLockState::Write(value)),
            ExclusiveLockState::Update(ReactiveConfiguration::Variable { value: first }) => Ok(
                ExclusiveLockState::Update(
                    ReactiveConfiguration::Variable {
                        value: StampedValue { value, basis: first.basis },
                    },
                ),
            ),
            ExclusiveLockState::Update(ReactiveConfiguration::Definition { .. }) => Err(
                Violation::WriteToDefinition,
            ),
            ExclusiveLockState::Retire => Err(Violation::AfterRetire),
        }
    }
}

/// Whether the node `before`, at `me`, becomes `after` and sends `sent` when
/// the holder `txid` asks to read a value that is at or ahead of `basis`. A
/// value that is there and far enough ahead on the node's ancestors is sent
/// at once; else the read waits.
pub open spec fn read_handled(
    before: Reactive,
    after: Reactive,
    me: Address,
    txid: TxId,
    basis: BasisStamp,
    sent: Seq<Envelope>,
) -> bool {
    let ready = before.current_value() is Some && stamp_prec_eq(
        basis@,
        before.current_value()->Some_0.basis@,
        before.ancestors(),
    );
    let state = before.lock().held().shared_of(txid);
    &&& same_cell(before, after)
    &&& staged_shared(
        before.lock(),
        after.lock(),
        txid,
        SharedLockState {
            preempting: state.preempting,
            subscription_updates: state.subscription_updates,
            read: if ready {
                Some(Read::Complete)
            } else {
                Some(Read::Pending(basis))
            },
        },
    )
    &&& if ready {
        sent.len() == 1 && is_read_result(sent[0], me, txid, before.current_value()->Some_0@)
    } else {
        sent.len() == 0
    }
}

/// Whether the node `before`, at `me`, becomes `after` and sends `sent` when
/// the input at `origin` propagates `value`: the update joins the queue of
/// the input; then the definition looks for a batch, and what a batch gives
/// is published.
pub open spec fn propagate_handled(
    before: Reactive,
    after: Reactive,
    me: Address,
    origin: Address,
    value: StampedValue,
    sent: Seq<Envelope>,
) -> bool {
    exists|queued: Reactive, applied: Reactive, out: Option<StampedValue>|
        {
            &&& #[trigger] batch_taken(before, queued, applied, origin, value, out)
            &&& match out {
                Some(fresh) => published(applied, after, me, fresh@, sent),
                None => after == applied && sent.len() == 0,
            }
        }
}

/// Whether `queued` is the node `before` with `value` queued for the input
/// at `origin`, and `applied` is `queued` once its definition has looked for
/// a batch, which gave `out`.
pub open spec fn batch_taken(
    before: Reactive,
    queued: Reactive,
    applied: Reactive,
    origin: Address,
    value: StampedValue,
    out: Option<StampedValue>,
) -> bool {
    &&& before.definition() is Some
    &&& queued.definition() is Some
    &&& applied.definition() is Some
    &&& update_added(before.definition()->Some_0, queued.definition()->Some_0, origin, value)
    &&& batch_applied(queued.definition()->Some_0, applied.definition()->Some_0, out)
    &&& same_but_definition(before, queued)
    &&& same_but_definition(queued, applied)
}

/// Whether the node `before` becomes `after` when it is asked for its next
/// value, and `out` is the answer. A value that the node was given and has
/// not reported is reported, and nothing else changes. Else a definition
/// applies the batch that it finds, and what the batch gives is the answer
/// and the node's value from then on; a variable has nothing to report.
pub open spec fn next_reported(before: Reactive, after: Reactive, out: Option<StampedValue>) -> bool {
    &&& after.lock() == before.lock()
    &&& after.reads() == before.reads()
    &&& after.subscribers() == before.subscribers()
    &&& after.version() == before.version()
    &&& after.iteration() == before.iteration()
    &&& !after.changed()
    &&& if before.changed() && before.current_value() is Some {
        &&& after.definition() == before.definition()
        &&& after.current_value() == before.current_value()
        &&& out matches Some(value)
        &&& value@ == before.current_value()->Some_0@
    } else {
        match before.definition() {
            Some(definition) => {
                &&& after.definition() matches Some(applied)
                &&& batch_applied(definition, applied, out)
                &&& match out {
                    Some(value) => after.current_value() matches Some(kept) && kept@ == value@,
                    None => after.current_value() == before.current_value(),
                }
            },
            None => {
                &&& out is None
                &&& after.definition() is None
                &&& after.current_value() == before.current_value()
            },
        }
    }
}

/// Whether `after` is `before` but for the definition.
pub open spec fn same_but_definition(before: Reactive, after: Reactive) -> bool {
    &&& after.lock() == before.lock()
    &&& after.current_value() == before.current_value()
    &&& after.reads() == before.reads()
    &&& after.subscribers() == before.subscribers()
    &&& after.version() == before.version()
    &&& after.iteration() == before.iteration()
    &&& after.changed() == before.changed()
}

/// Whether `after` is `before` but for the subscribers, of which `gone` is
/// no longer one.
pub open spec fn unsubscribed(before: Reactive, after: Reactive, gone: Address) -> bool {
    &&& after.lock() == before.lock()
    &&& after.definition() == before.definition()
    &&& after.current_value() == before.current_value()
    &&& after.reads() == before.reads()
    &&& after.version() == before.version()
    &&& after.iteration() == before.iteration()
    &&& after.changed() == before.changed()
    &&& after.subscribers()@ == before.subscribers()@.remove(gone)
}

/// Whether the node `before`, at `me`, becomes `after` and sends `sent` when
/// `txid` asks for a lock of the kind `kind`: the request joins the queue,
/// and then locks are granted.
pub open spec fn lock_requested(
    before: Reactive,
    after: Reactive,
    me: Address,
    txid: TxId,
    kind: LockKind,
    sent: Seq<Envelope>,
) -> bool {
    exists|queued: Reactive|
        {
            &&& #[trigger] locks_granted(queued, after, me, sent)
            &&& same_cell(before, queued)
            &&& queued.lock().held() == before.lock().held()
            &&& queued.lock().queued() == before.lock().queued().insert(
                tx_rank(before.lock().queued(), txid),
                (txid, kind),
            )
        }
}

/// Whether the node `before`, at `me`, becomes `after` and sends `sent` when
/// `txid` gives its lock up and drops what it staged: then locks are
/// granted.
pub open spec fn lock_aborted(
    before: Reactive,
    after: Reactive,
    me: Address,
    txid: TxId,
    sent: Seq<Envelope>,
) -> bool {
    exists|left: Reactive|
        {
            &&& #[trigger] locks_granted(left, after, me, sent)
            &&& same_cell(before, left)
            &&& left.lock().queued() == before.lock().queued()
            &&& given_up(before.lock().held(), left.lock().held(), txid)
        }
}

/// What `txid` has staged for the node itself: something only where it holds
/// the exclusive lock.
pub open spec fn staged_for_node(held: HeldLocks, txid: TxId) -> ExclusiveLockState {
    match staged_by(held, txid).exclusive {
        Some(staged) => staged,
        None => ExclusiveLockState::Unchanged,
    }
}

/// Whether the node `before`, at `me`, becomes `after` and sends `sent` when
/// `txid` commits with the stamp `basis` and gives its lock up: what it
/// staged is done, and then, unless the node has retired, locks are granted.
pub open spec fn lock_released(
    before: Reactive,
    after: Reactive,
    me: Address,
    txid: TxId,
    basis: BasisStamp,
    sent: Seq<Envelope>,
) -> bool {
    let shared = staged_by(before.lock().held(), txid).shared;
    let exclusive = staged_for_node(before.lock().held(), txid);
    exists|left: Reactive, applied: Reactive, first: Seq<Envelope>|
        {
            &&& #[trigger] changes_applied(left, applied, me, basis, shared, exclusive, first)
            &&& same_cell(before, left)
            &&& left.lock().queued() == before.lock().queued()
            &&& given_up(before.lock().held(), left.lock().held(), txid)
            &&& first.is_prefix_of(sent)
            &&& if exclusive is Retire {
                after == applied && sent == first
            } else {
                locks_granted(applied, after, me, sent.skip(first.len() as int))
            }
        }
}

/// Why the node `before` refuses `message`, if it does. A message is refused
/// that breaks the protocol: a request for a lock by a transaction that waits
/// for one already; an abort or release by a transaction that holds no lock;
/// a read or a change of subscriptions without a lock; a write, a new
/// configuration or a retirement without the exclusive lock; a write to a
/// definition; a write or a new configuration after a retirement was staged;
/// a new configuration after a write was staged; a propagated value at a
/// variable, or from a node that is no input. A release that would take the
/// node beyond its last version is refused too, and so is a message of a
/// kind that a node does not handle.
pub open spec fn refusal(before: Reactive, message: Message) -> Option<Violation> {
    let held = before.lock().held();
    match message {
        Message::Lock { txid, .. } => if tx_has(before.lock().queued(), txid) {
            Some(Violation::DoubleLock)
        } else {
            None
        },
        Message::Abort { txid } => if !held.holds(txid) {
            Some(Violation::AbortUnheld)
        } else {
            None
        },
        Message::Release { txid, .. } => if !held.holds(txid) {
            Some(Violation::ReleaseUnheld)
        } else if staged_for_node(held, txid) is Update && before.version().0 == usize::MAX {
            Some(Violation::VersionExhausted)
        } else {
            None
        },
        Message::Read { txid, .. } => if !held.holds(txid) {
            Some(Violation::NoSharedLock)
        } else {
            None
        },
        Message::Write { txid, value } => if !held.holds_exclusive(txid) {
            Some(Violation::NoExclusiveLock)
        } else {
            match write_staged(before.definition() is Some, held->Exclusive_2, value) {
                Ok(_) => None,
                Err(violation) => Some(violation),
            }
        },
        Message::Reconfigure { txid, .. } => if !held.holds_exclusive(txid) {
            Some(Violation::NoExclusiveLock)
        } else if held->Exclusive_2 is Retire {
            Some(Violation::AfterRetire)
        } else if held->Exclusive_2 is Write {
            Some(Violation::ReconfigureAfterWrite)
        } else {
            None
        },
        Message::Retire { txid } => if !held.holds_exclusive(txid) {
            Some(Violation::NoExclusiveLock)
        } else {
            None
        },
        Message::UpdateSubscriptions { txid, .. } => if !held.holds(txid) {
            Some(Violation::NoSharedLock)
        } else {
            None
        },
        Message::Propagate { sender: origin, .. } => if before.definition() is None {
            Some(Violation::PropagateToVariable)
        } else if !before.definition()->Some_0.inputs().contains_key(origin) {
            Some(Violation::UnknownInput)
        } else {
            None
        },
        Message::Unreachable { .. } => None,
        _ => Some(Violation::Unexpected),
    }
}

/// What becomes of the node `before`, at `me`, when it handles `message`,
/// which `sender` sent and which the node does not refuse: what the node is
/// afterwards, what it sends, and whether it retires.
pub open spec fn handled(
    before: Reactive,
    after: Reactive,
    me: Address,
    sender: Address,
    message: Message,
    sent: Seq<Envelope>,
    retired: bool,
) -> bool {
    let held = before.lock().held();
    match message {
        Message::Lock { txid, kind } => !retired && lock_requested(
            before,
            after,
            me,
            txid,
            kind,
            sent,
        ),
        Message::Abort { txid } => !retired && lock_aborted(before, after, me, txid, sent),
        Message::Release { txid, basis } => {
            &&& retired == (staged_for_node(held, txid) is Retire)
            &&& lock_released(before, after, me, txid, basis, sent)
        },
        Message::Read { txid, basis } => !retired && read_handled(
            before,
            after,
            me,
            txid,
            basis,
            sent,
        ),
        Message::Write { txid, value } => {
            &&& write_staged(before.definition() is Some, held->Exclusive_2, value) matches Ok(
                staged,
            )
            &&& !retired
            &&& sent.len() == 0
            &&& same_cell(before, after)
            &&& staged_exclusive(before.lock(), after.lock(), txid, staged)
        },
        Message::Reconfigure { txid, configuration } => {
            &&& !retired
            &&& sent.len() == 0
            &&& same_cell(before, after)
            &&& staged_exclusive(
                before.lock(),
                after.lock(),
                txid,
                ExclusiveLockState::Update(configuration),
            )
        },
        Message::Retire { txid } => {
            &&& !retired
            &&& sent.len() == 0
            &&& same_cell(before, after)
            &&& staged_exclusive(before.lock(), after.lock(), txid, ExclusiveLockState::Retire)
        },
        Message::UpdateSubscriptions { txid, changes } => {
            &&& !retired
            &&& sent.len() == 0
            &&& same_cell(before, after)
            &&& exists|state: SharedLockState|
                {
                    &&& #[trigger] staged_shared(before.lock(), after.lock(), txid, state)
                    &&& state.preempting == held.shared_of(txid).preempting
                    &&& state.read == held.shared_of(txid).read
                    &&& state.subscription_updates@ == held.shared_of(
                        txid,
                    ).subscription_updates@.union_prefer_right(changes@)
                }
        },
        Message::Propagate { sender: origin, value } => !retired && propagate_handled(
            before,
            after,
            me,
            origin,
            value,
            sent,
        ),
        Message::Unreachable { message: undelivered } => {
            &&& !retired
            &&& sent.len() == 0
            &&& if *undelivered is Propagate {
                unsubscribed(before, after, sender)
            } else {
                after == before
            }
        },
        _ => !retired && sent.len() == 0 && after == before,
    }
}

impl Reactive {
    /// The lock table.
    pub closed spec fn lock(&self) -> Lock {
        self.lock
    }

    /// The definition; `None` for a variable.
    pub closed spec fn definition(&self) -> Option<Definition> {
        self.definition
    }

    /// The current value.
    pub closed spec fn current_value(&self) -> Option<StampedValue> {
        self.value
    }

    /// The stamps of the reads of the current value, merged.
    pub closed spec fn reads(&self) -> Stamp {
        self.reads@
    }

    /// The subscribers.
    pub closed spec fn subscribers(&self) -> AddressSet {
        self.subscribers
    }

    /// The version: the number of times that the node was reconfigured.
    pub closed spec fn version(&self) -> Version {
        self.version
    }

    /// The iteration: that of the last write, for a variable.
    pub closed spec fn iteration(&self) -> Iteration {
        self.iteration
    }

    /// Whether the node was given a value or a configuration that
    /// [`Reactive::next_value`] has not reported yet.
    pub closed spec fn changed(&self) -> bool {
        self.changed
    }

    /// The variables from which the node's value derives, as far as reads are
    /// concerned: those of the definition's inputs, and none for a variable.
    pub open spec fn ancestors(&self) -> Set<Address> {
        match self.definition() {
            Some(definition) => all_ancestors(definition.input_states()),
            None => Set::empty(),
        }
    }

    /// The orders in which the node walks its subscribers and the inputs of
    /// its definition stand in step with the subscribers and the inputs: see
    /// [`AddressSet::counted`] and [`Definition::ordered`]. This holds of
    /// every node.
    pub open spec fn ordered(&self) -> bool {
        &&& self.subscribers().counted()
        &&& self.definition() matches Some(definition) ==> definition.ordered()
    }

    /// The orders of a node stand in step: see [`Reactive::ordered`].
    pub fn in_step(&self)
        ensures
            self.ordered(),
    {
        self.subscribers.in_step();
        match &self.definition {
            Some(definition) => {
                definition.in_step();
            },
            None => {},
        }
    }

    /// The lock table is in order, and nobody has staged a write to a
    /// definition.
    pub open spec fn wf(&self) -> bool {
        &&& self.lock().wf()
        &&& self.lock().held() matches HeldLocks::Exclusive(_, _, ExclusiveLockState::Write(_))
            ==> self.definition() is None
    }

    /// A node as `config` describes it: a variable with its first value, or a
    /// definition that has heard nothing from its inputs yet. It has no
    /// subscribers, nobody holds or awaits a lock, and version and iteration
    /// are zero.
    pub fn new(config: ReactiveConfiguration) -> (node: Reactive)
        ensures
            node.wf(),
            node.lock().queued() == Seq::<(TxId, LockKind)>::empty(),
            node.lock().held() is Free,
            node.reads() == Map::<Address, nat>::empty(),
            node.subscribers()@ == Set::<Address>::empty(),
            node.version().0 == 0,
            node.iteration().0 == 0,
            node.changed() == (config is Variable),
            node.ordered(),
            match config {
                ReactiveConfiguration::Variable { value } => {
                    &&& node.definition() is None
                    &&& node.current_value() == Some(value)
                },
                ReactiveConfiguration::Definition { expr, inputs } => {
                    &&& node.current_value() is None
                    &&& node.definition() matches Some(definition)
                    &&& defined(definition, expr@, inputs@)
                },
            },
    {
        let (definition, value) = match config {
            ReactiveConfiguration::Variable { value } => (None, Some(value)),
            ReactiveConfiguration::Definition { expr, inputs } => (
                Some(Definition::new(expr, inputs)),
                None,
            ),
        };
        let changed = value.is_some();
        let node = Reactive {
            lock: Lock::new(),
            definition,
            value,
            reads: BasisStamp::empty(),
            subscribers: AddressSet::new(),
            version: Version::zero(),
            iteration: Iteration::zero(),
            changed,
        };
        node.in_step();
        node
    }

    /// A node as `config` describes it, with the subscribers `subscribers`
    /// from the start: see [`Reactive::new`].
    pub fn with_subscribers(config: ReactiveConfiguration, subscribers: AddressSet) -> (node:
        Reactive)
        ensures
            node.wf(),
            node.lock().queued() == Seq::<(TxId, LockKind)>::empty(),
            node.lock().held() is Free,
            node.reads() == Map::<Address, nat>::empty(),
            node.subscribers() == subscribers,
            node.version().0 == 0,
            node.iteration().0 == 0,
            node.changed() == (config is Variable),
            node.ordered(),
            match config {
                ReactiveConfiguration::Variable { value } => {
                    &&& node.definition() is None
                    &&& node.current_value() == Some(value)
                },
                ReactiveConfiguration::Definition { expr, inputs } => {
                    &&& node.current_value() is None
                    &&& node.definition() matches Some(definition)
                    &&& defined(definition, expr@, inputs@)
                },
            },
    {
        let mut node = Reactive::new(config);
        node.subscribers = subscribers;
        node.in_step();
        node
    }

    /// The current value, if the node has one.
    pub fn value(&self) -> (value: Option<&StampedValue>)
        ensures
            match value {
                Some(v) => self.current_value() == Some(*v),
                None => self.current_value() is None,
            },
    {
        self.value.as_ref()
    }

    /// Notes that the current value was read by a transaction that commits
    /// with `basis`: the next value will carry that stamp too.
    pub fn finished_read(&mut self, basis: &BasisStamp)
        ensures
            final(self).reads() == stamp_merge(old(self).reads(), basis@),
            final(self).lock() == old(self).lock(),
            final(self).definition() == old(self).definition(),
            final(self).current_value() == old(self).current_value(),
            final(self).subscribers() == old(self).subscribers(),
            final(self).version() == old(self).version(),
            final(self).iteration() == old(self).iteration(),
            final(self).changed() == old(self).changed(),
    {
        self.reads.merge_from(basis);
    }

    /// The node's ancestors, as a lock grant reports them.
    fn collect_ancestors(&self) -> (ancestors: AddressSet)
        ensures
            ancestors@ == self.ancestors(),
    {
        match &self.definition {
            Some(definition) => definition.ancestors(),
            None => AddressSet::new(),
        }
    }

    /// Publishes `value` as the node's new value: see [`published`].
    pub fn update_value<A>(&mut self, value: StampedValue, ctx: &mut Context<A>)
        requires
            old(self).wf(),
        ensures
            final(self).wf(),
            final(ctx).extends(old(ctx)),
            final(ctx).spawned() == old(ctx).spawned(),
            final(ctx).retired() == old(ctx).retired(),
            published(
                *old(self),
                *final(self),
                old(ctx).spec_me(),
                value@,
                final(ctx).sent().skip(old(ctx).sent().len() as int),
            ),
            stamp_latest(final(self).current_value()->Some_0.basis@, old(ctx).spec_me()) <= final(self).iteration().0,
    {
        let me = ctx.me();
        let ghost sent0 = ctx.sent();
        let ghost holders0 = self.lock.held().holders();
        let mut value = value;
        value.basis.merge_from(&self.reads);
        let ghost stamped = value@;
        let latest = value.basis.latest(me);
        if latest.0 > self.iteration.0 {
            self.iteration = latest;
        }
        self.reads = BasisStamp::empty();
        let n = self.subscribers.len();
        let mut i: usize = 0;
        while i < n
            invariant
                i <= n,
                n == self.subscribers.members().len(),
                value@ == stamped,
                ctx.spec_me() == me,
                ctx.extends(old(ctx)),
                ctx.spawned() == old(ctx).spawned(),
                ctx.retired() == old(ctx).retired(),
                ctx.sent().len() == sent0.len() + i,
                sent0 == old(ctx).sent(),
                forall|k: int|
                    0 <= k < i ==> is_propagate(
                        #[trigger] ctx.sent()[sent0.len() + k],
                        me,
                        self.subscribers.members()[k],
                        stamped,
                    ),
            decreases n - i,
        {
            let target = self.subscribers.member_at(i);
            let ghost before = ctx.sent();
            ctx.send(target, Message::Propagate { sender: me, value: value.clone() });
            proof {
                assert forall|k: int| 0 <= k < i + 1 implies is_propagate(
                    #[trigger] ctx.sent()[sent0.len() + k],
                    me,
                    self.subscribers.members()[k],
                    stamped,
                ) by {
                    if k < i {
                        assert(ctx.sent()[sent0.len() + k] == before[sent0.len() + k]);
                    }
                }
            }
            i += 1;
        }
        let ancestors = self.collect_ancestors();
        let ghost roots = ancestors@;
        let ghost sent1 = ctx.sent();
        proof {
            assert(sent1.len() == sent0.len() + n);
            assert forall|k: int| 0 <= k < n implies is_propagate(
                #[trigger] sent1[sent0.len() + k],
                me,
                old(self).subscribers.members()[k],
                stamped,
            ) by {}
        }
        let m = self.lock.holder_count();
        let mut j: usize = 0;
        while j < m
            invariant
                j <= m,
                m == holders0.len(),
                value@ == stamped,
                roots == ancestors@,
                ctx.spec_me() == me,
                ctx.extends(old(ctx)),
                ctx.spawned() == old(ctx).spawned(),
                ctx.retired() == old(ctx).retired(),
                self.lock.wf(),
                self.lock.queued() == old(self).lock.queued(),
                self.lock.held().same_shape(&old(self).lock.held()),
                holders0 == old(self).lock.held().holders(),
                self.lock.held().holders().len() == m,
                self.definition == old(self).definition,
                self.subscribers == old(self).subscribers,
                self.version == old(self).version,
                self.reads@ == Map::<Address, nat>::empty(),
                self.iteration.0 == later(
                    old(self).iteration.0 as nat,
                    stamp_latest(stamped.basis, me),
                ),
                old(self).wf(),
                forall|k: int|
                    0 <= k < j ==> holder_woken(
                        holders0[k].1,
                        (#[trigger] self.lock.held().holders()[k]).1,
                        stamped.basis,
                        roots,
                    ),
                forall|k: int| j <= k < m ==> #[trigger] self.lock.held().holders()[k] == holders0[k],
                sent1.is_prefix_of(ctx.sent()),
                ctx.sent().len() == sent1.len() + woken(
                    holders0.take(j as int),
                    stamped.basis,
                    roots,
                ).len(),
                forall|k: int|
                    0 <= k < woken(holders0.take(j as int), stamped.basis, roots).len()
                        ==> is_read_result(
                        #[trigger] ctx.sent()[sent1.len() + k],
                        me,
                        woken(holders0.take(j as int), stamped.basis, roots)[k],
                        stamped,
                    ),
            decreases m - j,
        {
            let txid = self.lock.holder_txid(j);
            let ready = match &self.lock.holder_state(j).read {
                Some(Read::Pending(wanted)) => wanted.prec_eq_wrt_roots(&value.basis, &ancestors),
                _ => false,
            };
            let ghost before = ctx.sent();
            let ghost held_before = self.lock.held();
            let ghost done = woken(holders0.take(j as int), stamped.basis, roots);
            proof {
                assert(holders0.take(j + 1).drop_last() =~= holders0.take(j as int));
                assert(holders0.take(j + 1).last() == holders0[j as int]);
                assert(ready == wakes(holders0[j as int].1, stamped.basis, roots));
            }
            if ready {
                ctx.send(
                    txid.address,
                    Message::ReadResult { txid, address: me, value: value.clone() },
                );
                let state = self.lock.holder_state_mut(j);
                state.read = Some(Read::Complete);
            }
            proof {
                let now = self.lock.held().holders();
                let next = woken(holders0.take(j + 1), stamped.basis, roots);
                assert forall|k: int| 0 <= k < j + 1 implies holder_woken(
                    holders0[k].1,
                    (#[trigger] now[k]).1,
                    stamped.basis,
                    roots,
                ) by {
                    if k < j {
                        assert(now[k] == held_before.holders()[k]);
                    }
                }
                assert forall|k: int| j + 1 <= k < m implies #[trigger] now[k] == holders0[k] by {
                    assert(now[k] == held_before.holders()[k]);
                }
                assert forall|k: int| 0 <= k < next.len() implies is_read_result(
                    #[trigger] ctx.sent()[sent1.len() + k],
                    me,
                    next[k],
                    stamped,
                ) by {
                    if k < done.len() {
                        assert(ctx.sent()[sent1.len() + k] == before[sent1.len() + k]);
                    }
                }
                assert forall|k: int| 0 <= k < m implies (#[trigger] now[k]).0 == old(self).lock.held().holders()[k].0 by {
                    assert(now[k].0 == held_before.holders()[k].0);
                }
            }
            j += 1;
        }
        self.value = Some(value);
        self.changed = true;
        proof {
            assert(holders0.take(m as int) =~= holders0);
            let sent = ctx.sent().skip(sent0.len() as int);
            let subscribers = self.subscribers.members();
            let answered = woken(holders0, stamped.basis, roots);
            assert(sent.len() == subscribers.len() + answered.len());
            assert forall|k: int| 0 <= k < subscribers.len() implies is_propagate(
                #[trigger] sent[k],
                me,
                subscribers[k],
                stamped,
            ) by {
                assert(sent[k] == ctx.sent()[sent0.len() + k]);
                assert(ctx.sent()[sent0.len() + k] == sent1[sent0.len() + k]);
            }
            assert forall|k: int| 0 <= k < answered.len() implies is_read_result(
                #[trigger] sent[subscribers.len() + k],
                me,
                answered[k],
                stamped,
            ) by {
                assert(sent[subscribers.len() + k] == ctx.sent()[sent1.len() + k]);
            }
        }
    }

    /// Makes the changes `changes` to the subscribers: an address mapped to
    /// `true` subscribes, one mapped to `false` unsubscribes.
    pub fn apply_subscriptions(&mut self, changes: &AddressMap<bool>)
        ensures
            subscriptions_applied(*old(self), *final(self), changes@),
    {
        let ghost before = self.subscribers@;
        changes.in_step();
        let n = changes.len();
        let mut i: usize = 0;
        while i < n
            invariant
                i <= n,
                n == changes.keys().len(),
                changes.wf(),
                self.lock == old(self).lock,
                self.definition == old(self).definition,
                self.value == old(self).value,
                self.reads == old(self).reads,
                self.version == old(self).version,
                self.iteration == old(self).iteration,
                self.changed == old(self).changed,
                before == old(self).subscribers@,
                forall|a: Address|
                    #![trigger self.subscribers@.contains(a)]
                    self.subscribers@.contains(a) <==> if changes.keys().take(i as int).contains(a) {
                        changes@[a]
                    } else {
                        before.contains(a)
                    },
            decreases n - i,
        {
            let address = changes.key_at(i);
            let subscribe = *changes.value_at(i);
            let ghost mid = self.subscribers@;
            if subscribe {
                let _ = self.subscribers.insert(address);
            } else {
                let _ = self.subscribers.remove(address);
            }
            proof {
                let taken = changes.keys().take(i as int);
                let next = changes.keys().take(i + 1);
                assert(next =~= taken.push(address));
                assert forall|a: Address| next.contains(a) <==> taken.contains(a) || a == address by {
                    if taken.contains(a) {
                        let x = taken.index_of(a);
                        assert(next[x] == a);
                    }
                    if a == address {
                        assert(next[i as int] == a);
                    }
                    if next.contains(a) {
                        let x = next.index_of(a);
                        if x < i {
                            assert(taken[x] == a);
                        }
                    }
                }
                assert forall|a: Address|
                    #![trigger self.subscribers@.contains(a)]
                    self.subscribers@.contains(a) <==> if next.contains(a) {
                        changes@[a]
                    } else {
                        before.contains(a)
                    } by {
                    if a != address {
                        assert(self.subscribers@.contains(a) == mid.contains(a));
                    } else {
                        assert(!taken.contains(a)) by {
                            if taken.contains(a) {
                                let x = taken.index_of(a);
                                assert(changes.keys()[x] == changes.keys()[i as int]);
                            }
                        }
                    }
                }
            }
            i += 1;
        }
        self.subscribers.in_step();
        proof {
            assert(changes.keys().take(n as int) =~= changes.keys());
            changes.lemma_view_dom();
        }
    }

    /// Takes on the configuration `config`, and with it the next version. A
    /// variable starts with the value that `config` gives it, which is
    /// published. A new definition has no value of its own yet. A definition
    /// that replaces a definition keeps the baselines of the inputs that it
    /// still reads, and publishes what it then evaluates to, if anything.
    ///
    /// A node on which a write is staged is not given a new configuration:
    /// the written value would be lost. The node refuses the message that
    /// asks for it: see [`Violation::ReconfigureAfterWrite`].
    pub fn reconfigure<A>(&mut self, config: ReactiveConfiguration, ctx: &mut Context<A>)
        requires
            old(self).wf(),
            old(self).version().0 < usize::MAX,
            !(old(self).lock().held() matches HeldLocks::Exclusive(
                _,
                _,
                ExclusiveLockState::Write(_),
            )),
        ensures
            final(self).wf(),
            final(ctx).extends(old(ctx)),
            final(ctx).spawned() == old(ctx).spawned(),
            final(ctx).retired() == old(ctx).retired(),
            reconfigured(
                *old(self),
                *final(self),
                old(ctx).spec_me(),
                config,
                final(ctx).sent().skip(old(ctx).sent().len() as int),
            ),
    {
        self.version = self.version.increment();
        self.changed = true;
        let fresh = match config {
            ReactiveConfiguration::Variable { value } => {
                self.definition = None;
                Some(value)
            },
            ReactiveConfiguration::Definition { expr, inputs } => {
                let mut definition: Option<Definition> = None;
                core::mem::swap(&mut self.definition, &mut definition);
                match definition {
                    None => {
                        self.definition = Some(Definition::new(expr, inputs));
                        None
                    },
                    Some(mut existing) => {
                        let fresh = existing.reconfigure(expr, inputs);
                        self.definition = Some(existing);
                        fresh
                    },
                }
            },
        };
        let ghost mid = *self;
        proof {
            assert(redefined_node(*old(self), mid, config, fresh));
        }
        match fresh {
            Some(value) => {
                self.update_value(value, ctx);
            },
            None => {
                proof {
                    assert(ctx.sent().skip(old(ctx).sent().len() as int).len() == 0);
                }
            },
        }
    }

    /// Does what was staged under a lock that is released with the stamp
    /// `basis`: see [`changes_applied`]. Returns whether the node has retired.
    pub fn apply_changes<A>(
        &mut self,
        basis: BasisStamp,
        shared: SharedLockState,
        exclusive: ExclusiveLockState,
        ctx: &mut Context<A>,
    ) -> (retired: bool)
        requires
            old(self).wf(),
            old(self).lock().held() is Free || old(self).lock().held() is Shared,
            exclusive is Write ==> old(self).definition() is None,
            exclusive is Update ==> old(self).version().0 < usize::MAX,
        ensures
            final(self).wf(),
            retired == (exclusive is Retire),
            final(ctx).extends(old(ctx)),
            final(ctx).spawned() == old(ctx).spawned(),
            final(ctx).retired() == (old(ctx).retired() || retired),
            changes_applied(
                *old(self),
                *final(self),
                old(ctx).spec_me(),
                basis,
                shared,
                exclusive,
                final(ctx).sent().skip(old(ctx).sent().len() as int),
            ),
    {
        let SharedLockState { preempting: _, subscription_updates, read } = shared;
        match &read {
            Some(Read::Complete) => {
                self.reads.merge_from(&basis);
            },
            _ => {},
        }
        let ghost noted = *self;
        proof {
            assert(read_noted(*old(self), noted, shared.read, basis@));
        }
        let retired = match exclusive {
            ExclusiveLockState::Unchanged => {
                proof {
                    assert(ctx.sent().skip(old(ctx).sent().len() as int).len() == 0);
                }
                false
            },
            ExclusiveLockState::Retire => {
                ctx.retire();
                proof {
                    assert(ctx.sent().skip(old(ctx).sent().len() as int).len() == 0);
                }
                true
            },
            ExclusiveLockState::Write(value) => {
                self.update_value(StampedValue { value, basis }, ctx);
                false
            },
            ExclusiveLockState::Update(config) => {
                self.reconfigure(config, ctx);
                false
            },
        };
        let ghost done = *self;
        self.apply_subscriptions(&subscription_updates);
        proof {
            assert(subscriptions_applied(done, *self, shared.subscription_updates@));
        }
        retired
    }

    /// The addresses of the inputs of the definition, in the order in which
    /// the definition walks them; none for a variable.
    pub fn inputs(&self) -> (inputs: Vec<Address>)
        ensures
            inputs@ == match self.definition() {
                Some(definition) => definition.input_order(),
                None => Seq::empty(),
            },
    {
        match &self.definition {
            Some(definition) => definition.input_addresses(),
            None => Vec::new(),
        }
    }

    /// Queues `value` as the newest update of the input at `sender`. The
    /// node must be a definition, and `sender` one of its inputs: an update
    /// at a variable, or from a node that is no input, breaks the protocol.
    pub fn add_update(&mut self, sender: Address, value: StampedValue)
        requires
            old(self).definition() matches Some(definition) && definition.inputs().contains_key(
                sender,
            ),
        ensures
            same_but_definition(*old(self), *final(self)),
            final(self).definition() is Some,
            update_added(
                old(self).definition()->Some_0,
                final(self).definition()->Some_0,
                sender,
                value,
            ),
    {
        match &mut self.definition {
            Some(definition) => {
                definition.add_update(sender, value);
            },
            None => {},
        }
    }

    /// Lets the definition look for a batch of updates and apply it. Returns
    /// the value that this gives; it is neither kept nor published here.
    fn take_batch(&mut self) -> (out: Option<StampedValue>)
        ensures
            same_but_definition(*old(self), *final(self)),
            match old(self).definition() {
                Some(definition) => final(self).definition() is Some && batch_applied(
                    definition,
                    final(self).definition()->Some_0,
                    out,
                ),
                None => out is None && *final(self) == *old(self),
            },
    {
        match &mut self.definition {
            Some(definition) => definition.find_and_apply_batch(),
            None => None,
        }
    }

    /// The next value of the node that nobody has been told of, if there is
    /// one: see [`next_reported`]. Each value that the node was given is
    /// reported once. Else a definition looks for a batch of updates and
    /// applies it; the value that this gives is from then on the value of the
    /// node. Nothing is published here.
    pub fn next_value(&mut self) -> (out: Option<StampedValue>)
        ensures
            next_reported(*old(self), *final(self), out),
    {
        let was = self.changed;
        self.changed = false;
        if was {
            match &self.value {
                Some(value) => {
                    return Some(value.clone());
                },
                None => {},
            }
        }
        match self.take_batch() {
            Some(found) => {
                self.value = Some(found.clone());
                Some(found)
            },
            None => None,
        }
    }

    /// Publishes `value` as the new value of a variable: see [`published`].
    pub fn write<A>(&mut self, value: StampedValue, ctx: &mut Context<A>)
        requires
            old(self).wf(),
            old(self).definition() is None,
        ensures
            final(self).wf(),
            final(self).definition() is None,
            final(ctx).extends(old(ctx)),
            final(ctx).spawned() == old(ctx).spawned(),
            final(ctx).retired() == old(ctx).retired(),
            published(
                *old(self),
                *final(self),
                old(ctx).spec_me(),
                value@,
                final(ctx).sent().skip(old(ctx).sent().len() as int),
            ),
    {
        self.update_value(value, ctx);
    }

    /// Handles a request for a lock, or the end of one.
    fn on_lock_message<A>(
        &mut self,
        sender: Address,
        message: Message,
        ctx: &mut Context<A>,
    )
        requires
            old(self).wf(),
            !old(ctx).retired(),
            message is Lock || message is Abort || message is Release,
            refusal(*old(self), message) is None,
        ensures
            final(self).wf(),
            final(ctx).extends(old(ctx)),
            final(ctx).spawned() == old(ctx).spawned(),
            handled(
                *old(self),
                *final(self),
                old(ctx).spec_me(),
                sender,
                message,
                final(ctx).sent().skip(old(ctx).sent().len() as int),
                final(ctx).retired(),
            ),
    {
        let me = ctx.me();
        let ghost sent0 = ctx.sent();
        let ghost before = *self;
        let ghost msg = message;
        proof {
            if let Message::Release { txid, .. } = msg {
                if before.lock.held() is Exclusive {
                    crate::tx_map::lemma_index_unique(before.lock.held().holders(), 0);
                }
            }
        }
        match self.lock.accept(message) {
            LockEvent::Queued { txid, kind } => {
                let ghost queued = *self;
                self.grant_locks(ctx);
                proof {
                    assert(locks_granted(
                        queued,
                        *self,
                        me,
                        ctx.sent().skip(sent0.len() as int),
                    ));
                    assert(handled(
                        before,
                        *self,
                        me,
                        sender,
                        msg,
                        ctx.sent().skip(sent0.len() as int),
                        ctx.retired(),
                    ));
                }
            },
            LockEvent::Aborted { txid, data } => {
                let ghost left = *self;
                self.grant_locks(ctx);
                proof {
                    assert(locks_granted(left, *self, me, ctx.sent().skip(sent0.len() as int)));
                    assert(handled(
                        before,
                        *self,
                        me,
                        sender,
                        msg,
                        ctx.sent().skip(sent0.len() as int),
                        ctx.retired(),
                    ));
                }
            },
            LockEvent::Released { txid, data, basis } => {
                let ghost left = *self;
                let LockData { shared, exclusive } = data;
                let exclusive = match exclusive {
                    Some(staged) => staged,
                    None => ExclusiveLockState::Unchanged,
                };
                proof {
                    if before.lock.held() is Exclusive {
                        crate::tx_map::lemma_index_unique(before.lock.held().holders(), 0);
                    }
                    assert(exclusive == staged_for_node(before.lock.held(), txid));
                }
                let retired = self.apply_changes(basis, shared, exclusive, ctx);
                let ghost applied = *self;
                let ghost sent1 = ctx.sent();
                let ghost first = sent1.skip(sent0.len() as int);
                if !retired {
                    self.grant_locks(ctx);
                    proof {
                        let second = ctx.sent().skip(sent1.len() as int);
                        let sent = ctx.sent().skip(sent0.len() as int);
                        assert(sent =~= first + second);
                        assert(sent.skip(first.len() as int) =~= second);
                        assert(changes_applied(left, applied, me, basis, shared, exclusive, first));
                        assert(locks_granted(applied, *self, me, second));
                        assert(lock_released(
                            before,
                            *self,
                            me,
                            txid,
                            basis,
                            ctx.sent().skip(sent0.len() as int),
                        ));
                    }
                } else {
                    proof {
                        let second = Seq::<Envelope>::empty();
                        assert(ctx.sent().skip(sent0.len() as int) =~= first + second);
                        assert(changes_applied(left, applied, me, basis, shared, exclusive, first));
                        assert(lock_released(
                            before,
                            *self,
                            me,
                            txid,
                            basis,
                            ctx.sent().skip(sent0.len() as int),
                        ));
                    }
                }
                proof {
                    assert(handled(
                        before,
                        *self,
                        me,
                        sender,
                        msg,
                        ctx.sent().skip(sent0.len() as int),
                        ctx.retired(),
                    ));
                }
            },
            LockEvent::Unhandled(_) => {
                proof {
                    assert(false);
                }
            },
        }
    }

    /// Handles the request of a holder for the node's value.
    fn on_read<A>(&mut self, txid: TxId, basis: BasisStamp, ctx: &mut Context<A>)
        requires
            old(self).wf(),
            old(self).lock().held().holds(txid),
        ensures
            final(self).wf(),
            final(ctx).extends(old(ctx)),
            final(ctx).spawned() == old(ctx).spawned(),
            final(ctx).retired() == old(ctx).retired(),
            read_handled(
                *old(self),
                *final(self),
                old(ctx).spec_me(),
                txid,
                basis,
                final(ctx).sent().skip(old(ctx).sent().len() as int),
            ),
    {
        let me = ctx.me();
        let ancestors = self.collect_ancestors();
        let ready = match &self.value {
            Some(value) => basis.prec_eq_wrt_roots(&value.basis, &ancestors),
            None => false,
        };
        let ghost sent0 = ctx.sent();
        match self.lock.shared_lock_mut(&txid) {
            Some(state) => {
                if ready {
                    state.read = Some(Read::Complete);
                } else {
                    state.read = Some(Read::Pending(basis));
                }
            },
            None => {},
        }
        if ready {
            match &self.value {
                Some(value) => {
                    ctx.send(
                        txid.address,
                        Message::ReadResult { txid, address: me, value: value.clone() },
                    );
                },
                None => {},
            }
        }
        proof {
            let sent = ctx.sent().skip(sent0.len() as int);
            if ready {
                assert(sent.len() == 1);
                assert(sent[0] == ctx.sent()[sent0.len() as int]);
            } else {
                assert(sent.len() == 0);
            }
        }
    }

    /// Handles what the holder of the exclusive lock stages for the node.
    fn on_exclusive(&mut self, message: Message)
        requires
            old(self).wf(),
            message is Write || message is Reconfigure || message is Retire,
            refusal(*old(self), message) is None,
        ensures
            final(self).wf(),
            forall|me: Address, sender: Address|
                handled(
                    *old(self),
                    *final(self),
                    me,
                    sender,
                    message,
                    Seq::<Envelope>::empty(),
                    false,
                ),
    {
        match message {
            Message::Write { txid, value } => {
                match self.lock.exclusive_lock_mut(&txid) {
                    Some(staged) => {
                        match staged {
                            ExclusiveLockState::Update(
                                ReactiveConfiguration::Variable { value: first },
                            ) => {
                                first.value = value;
                            },
                            _ => {
                                *staged = ExclusiveLockState::Write(value);
                            },
                        }
                    },
                    None => {},
                }
            },
            Message::Reconfigure { txid, configuration } => {
                match self.lock.exclusive_lock_mut(&txid) {
                    Some(staged) => {
                        *staged = ExclusiveLockState::Update(configuration);
                    },
                    None => {},
                }
            },
            Message::Retire { txid } => {
                match self.lock.exclusive_lock_mut(&txid) {
                    Some(staged) => {
                        *staged = ExclusiveLockState::Retire;
                    },
                    None => {},
                }
            },
            _ => {},
        }
    }

    /// Handles a value that an input has propagated.
    fn on_propagate<A>(
        &mut self,
        sender: Address,
        origin: Address,
        value: StampedValue,
        ctx: &mut Context<A>,
    )
        requires
            old(self).wf(),
            old(self).definition() matches Some(definition) && definition.inputs().contains_key(
                origin,
            ),
        ensures
            final(self).wf(),
            final(ctx).extends(old(ctx)),
            final(ctx).spawned() == old(ctx).spawned(),
            final(ctx).retired() == old(ctx).retired(),
            propagate_handled(
                *old(self),
                *final(self),
                old(ctx).spec_me(),
                origin,
                value,
                final(ctx).sent().skip(old(ctx).sent().len() as int),
            ),
    {
        let me = ctx.me();
        let ghost sent0 = ctx.sent();
        let ghost before = *self;
        self.add_update(origin, value);
        let ghost queued = *self;
        let out = self.take_batch();
        let ghost applied = *self;
        proof {
            assert(batch_taken(before, queued, applied, origin, value, out));
        }
        match out {
            Some(fresh) => {
                self.update_value(fresh, ctx);
            },
            None => {
                proof {
                    assert(ctx.sent().skip(sent0.len() as int).len() == 0);
                }
            },
        }
    }

    /// Whether the node refuses `message`, and why: see [`refusal`]. Nothing
    /// is changed by the test.
    pub fn check(&self, message: &Message) -> (refused: Option<Violation>)
        requires
            self.wf(),
        ensures
            refused == refusal(*self, *message),
    {
        match message {
            Message::Lock { txid, .. } => {
                if self.lock.is_queued(txid) {
                    Some(Violation::DoubleLock)
                } else {
                    None
                }
            },
            Message::Abort { txid } => {
                if self.lock.holds(txid) {
                    None
                } else {
                    Some(Violation::AbortUnheld)
                }
            },
            Message::Release { txid, .. } => {
                if !self.lock.holds(txid) {
                    Some(Violation::ReleaseUnheld)
                } else {
                    proof {
                        if self.lock.held() is Exclusive {
                            crate::tx_map::lemma_index_unique(self.lock.held().holders(), 0);
                        }
                    }
                    match self.lock.exclusive_lock(txid) {
                        Some(ExclusiveLockState::Update(_)) => {
                            if self.version.0 == usize::MAX {
                                Some(Violation::VersionExhausted)
                            } else {
                                None
                            }
                        },
                        _ => None,
                    }
                }
            },
            Message::Read { txid, .. } => {
                if self.lock.holds(txid) {
                    None
                } else {
                    Some(Violation::NoSharedLock)
                }
            },
            Message::Write { txid, .. } => {
                match self.lock.exclusive_lock(txid) {
                    None => Some(Violation::NoExclusiveLock),
                    Some(staged) => {
                        if self.definition.is_some() {
                            Some(Violation::WriteToDefinition)
                        } else {
                            match staged {
                                ExclusiveLockState::Update(
                                    ReactiveConfiguration::Definition { .. },
                                ) => Some(Violation::WriteToDefinition),
                                ExclusiveLockState::Retire => Some(Violation::AfterRetire),
                                _ => None,
                            }
                        }
                    },
                }
            },
            Message::Reconfigure { txid, .. } => {
                match self.lock.exclusive_lock(txid) {
                    None => Some(Violation::NoExclusiveLock),
                    Some(ExclusiveLockState::Retire) => Some(Violation::AfterRetire),
                    Some(ExclusiveLockState::Write(_)) => Some(Violation::ReconfigureAfterWrite),
                    Some(_) => None,
                }
            },
            Message::Retire { txid } => {
                match self.lock.exclusive_lock(txid) {
                    None => Some(Violation::NoExclusiveLock),
                    Some(_) => None,
                }
            },
            Message::UpdateSubscriptions { txid, .. } => {
                if self.lock.holds(txid) {
                    None
                } else {
                    Some(Violation::NoSharedLock)
                }
            },
            Message::Propagate { sender: origin, .. } => {
                match &self.definition {
                    None => Some(Violation::PropagateToVariable),
                    Some(definition) => {
                        if definition.has_input(*origin) {
                            None
                        } else {
                            Some(Violation::UnknownInput)
                        }
                    },
                }
            },
            Message::Unreachable { .. } => None,
            _ => Some(Violation::Unexpected),
        }
    }

    /// Handles `message`, which `sender` sent: see [`handled`]. A message that
    /// breaks the protocol is not handled: whoever hands messages over asks
    /// [`Reactive::check`] first.
    pub fn handle<A>(&mut self, sender: Address, message: Message, ctx: &mut Context<A>)
        requires
            old(self).wf(),
            !old(ctx).retired(),
            refusal(*old(self), message) is None,
        ensures
            final(self).ordered(),
            final(self).wf(),
            final(ctx).extends(old(ctx)),
            final(ctx).spawned() == old(ctx).spawned(),
            handled(
                *old(self),
                *final(self),
                old(ctx).spec_me(),
                sender,
                message,
                final(ctx).sent().skip(old(ctx).sent().len() as int),
                final(ctx).retired(),
            ),
    {
        let ghost sent0 = ctx.sent();
        proof {
            assert(sent0.skip(sent0.len() as int) =~= Seq::empty());
        }
        match message {
            Message::Lock { txid, kind } => self.on_lock_message(
                sender,
                Message::Lock { txid, kind },
                ctx,
            ),
            Message::Abort { txid } => self.on_lock_message(sender, Message::Abort { txid }, ctx),
            Message::Release { txid, basis } => self.on_lock_message(
                sender,
                Message::Release { txid, basis },
                ctx,
            ),
            Message::Read { txid, basis } => self.on_read(txid, basis, ctx),
            Message::Write { txid, value } => self.on_exclusive(Message::Write { txid, value }),
            Message::Reconfigure { txid, configuration } => self.on_exclusive(
                Message::Reconfigure { txid, configuration },
            ),
            Message::Retire { txid } => self.on_exclusive(Message::Retire { txid }),
            Message::UpdateSubscriptions { txid, changes } => {
                let ghost before = *self;
                let ghost at = tx_index_of(before.lock.held().holders(), txid);
                match self.lock.shared_lock_mut(&txid) {
                    Some(state) => {
                        state.subscription_updates.extend(&changes);
                    },
                    None => {},
                }
                proof {
                    let state = self.lock.held().holders()[at].1;
                    assert(staged_shared(before.lock(), self.lock(), txid, state));
                }
            },
            Message::Propagate { sender: origin, value } => self.on_propagate(
                sender,
                origin,
                value,
                ctx,
            ),
            Message::Unreachable { message: undelivered } => {
                if undelivered.is_propagate() {
                    let _ = self.subscribers.remove(sender);
                }
            },
            _ => {},
        }
        self.in_step();
    }

    /// Grants what locks can be granted, tells those who now hold one, and
    /// asks the holders that stand in the way of an older transaction to give
    /// their locks up: see [`Lock::process_queue`].
    pub fn grant_locks<A>(&mut self, ctx: &mut Context<A>)
        requires
            old(self).wf(),
        ensures
            final(self).wf(),
            final(ctx).extends(old(ctx)),
            final(ctx).spawned() == old(ctx).spawned(),
            final(ctx).retired() == old(ctx).retired(),
            locks_granted(
                *old(self),
                *final(self),
                old(ctx).spec_me(),
                final(ctx).sent().skip(old(ctx).sent().len() as int),
            ),
    {
        let me = ctx.me();
        let ghost sent0 = ctx.sent();
        let out = self.lock.process_queue();
        let Granted { granted, preempted } = out;
        let mut i: usize = 0;
        while i < preempted.len()
            invariant
                i <= preempted@.len(),
                ctx.spec_me() == me,
                ctx.extends(old(ctx)),
                ctx.spawned() == old(ctx).spawned(),
                ctx.retired() == old(ctx).retired(),
                sent0 == old(ctx).sent(),
                ctx.sent().len() == sent0.len() + i,
                forall|k: int|
                    0 <= k < i ==> is_preempt(#[trigger] ctx.sent()[sent0.len() + k], me, preempted@[k]),
            decreases preempted@.len() - i,
        {
            let txid = preempted[i];
            let ghost before = ctx.sent();
            ctx.send(txid.address, Message::Preempt { txid });
            proof {
                assert forall|k: int| 0 <= k < i + 1 implies is_preempt(
                    #[trigger] ctx.sent()[sent0.len() + k],
                    me,
                    preempted@[k],
                ) by {
                    if k < i {
                        assert(ctx.sent()[sent0.len() + k] == before[sent0.len() + k]);
                    }
                }
            }
            i += 1;
        }
        let ghost sent1 = ctx.sent();
        let mut j: usize = 0;
        while j < granted.len()
            invariant
                j <= granted@.len(),
                ctx.spec_me() == me,
                ctx.extends(old(ctx)),
                ctx.spawned() == old(ctx).spawned(),
                ctx.retired() == old(ctx).retired(),
                sent1.is_prefix_of(ctx.sent()),
                ctx.sent().len() == sent1.len() + j,
                forall|k: int|
                    0 <= k < j ==> is_grant(
                        #[trigger] ctx.sent()[sent1.len() + k],
                        me,
                        granted@[k],
                        *self,
                    ),
            decreases granted@.len() - j,
        {
            let txid = granted[j];
            let node_kind = match &self.definition {
                Some(definition) => NodeKind::Definition { ancestors: definition.ancestors() },
                None => NodeKind::Variable { iteration: self.iteration },
            };
            let ghost before = ctx.sent();
            ctx.send(
                txid.address,
                Message::LockGranted { txid, address: me, node_kind, version: self.version },
            );
            proof {
                assert forall|k: int| 0 <= k < j + 1 implies is_grant(
                    #[trigger] ctx.sent()[sent1.len() + k],
                    me,
                    granted@[k],
                    *self,
                ) by {
                    if k < j {
                        assert(ctx.sent()[sent1.len() + k] == before[sent1.len() + k]);
                    }
                }
            }
            j += 1;
        }
        proof {
            let sent = ctx.sent().skip(sent0.len() as int);
            assert forall|k: int| 0 <= k < preempted@.len() implies is_preempt(
                #[trigger] sent[k],
                me,
                preempted@[k],
            ) by {
                assert(sent[k] == ctx.sent()[sent0.len() + k]);
                assert(ctx.sent()[sent0.len() + k] == sent1[sent0.len() + k]);
            }
            assert forall|k: int| 0 <= k < granted@.len() implies is_grant(
                #[trigger] sent[preempted@.len() + k],
                me,
                granted@[k],
                *self,
            ) by {
                assert(sent[preempted@.len() + k] == ctx.sent()[sent1.len() + k]);
            }
            assert(lock_messages(sent, me, preempted@, granted@, *self));
        }
    }
}

/// An actor that can be a reactive node. A manager that upgrades the graph
/// spawns the new nodes as actors of the kind that it is itself hosted as.
pub trait Host: Sized {
    /// The node that this actor is, if it is one. A host says here what
    /// [`Host::host`] returns; one that does not say is held to nothing.
    open spec fn hosted(&self) -> Option<Reactive> {
        vstd::pervasive::arbitrary()
    }

    /// The actor that is the node `node`.
    fn host(node: Reactive) -> (actor: Self)
        ensures
            actor.hosted() == Some(node),
    ;
}

impl Host for Reactive {
    open spec fn hosted(&self) -> Option<Reactive> {
        Some(*self)
    }

    fn host(node: Reactive) -> (actor: Self) {
        node
    }
}

impl Actor for Reactive {
    open spec fn valid(&self) -> bool {
        self.wf()
    }

    open spec fn refuses(&self, sender: Address, message: Message) -> Option<Violation> {
        refusal(*self, message)
    }

    open spec fn handles(
        &self,
        after: Self,
        sender: Address,
        message: Message,
        ctx: Context<Self>,
        left: Context<Self>,
    ) -> bool {
        &&& left.spawned() == ctx.spawned()
        &&& handled(
            *self,
            after,
            ctx.spec_me(),
            sender,
            message,
            left.sent().skip(ctx.sent().len() as int),
            left.retired(),
        )
    }

    fn check(&self, sender: Address, message: &Message) -> (refused: Option<Violation>) {
        Reactive::check(self, message)
    }

    fn handle(&mut self, sender: Address, message: Message, ctx: &mut Context<Reactive>)
        ensures
            final(self).ordered(),
            final(ctx).spawned() == old(ctx).spawned(),
            handled(
                *old(self),
                *final(self),
                old(ctx).spec_me(),
                sender,
                message,
                final(ctx).sent().skip(old(ctx).sent().len() as int),
                final(ctx).retired(),
            ),
    {
        Reactive::handle(self, sender, message, ctx)
    }
}

} // verus!
