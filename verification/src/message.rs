//! The messages that actors exchange, and the data they carry.

use crate::actor::{Address, Version};
use crate::address_map::{AddressMap, AddressSet};
use crate::directory::DirectoryState;
use crate::expr::{Action, Expr, Upgrade, Value, ValueView};
use vstd::prelude::*;

pub use crate::basis::{BasisStamp, Iteration, Stamp};
pub use crate::txid::{LockKind, MonotonicTimestampGenerator, Timestamp, TxId, TxPriority};

verus! {

/// A value together with the stamp of the root iterations it depends on.
#[derive(Debug, PartialEq, Eq)]
pub struct StampedValue {
    pub value: Value,
    pub basis: BasisStamp,
}

/// The mathematical content of a [`StampedValue`].
pub struct StampedValueView {
    pub value: ValueView,
    pub basis: Stamp,
}

impl StampedValue {
    /// The stamped value as mathematics.
    pub open spec fn view(&self) -> StampedValueView {
        StampedValueView { value: self.value@, basis: self.basis@ }
    }
}

impl Clone for StampedValue {
    fn clone(&self) -> (copy: Self)
        ensures
            copy@ == self@,
    {
        StampedValue { value: self.value.clone(), basis: self.basis.clone() }
    }
}

/// What a definition is told about one of its inputs.
#[derive(Debug, PartialEq, Eq)]
pub struct InputMetadata {
    /// The variables from which the input's value derives.
    pub ancestors: AddressSet,
}

/// What a reactive node is to be: a variable with a first value, or a
/// definition over other nodes.
#[derive(Debug, PartialEq, Eq)]
pub enum ReactiveConfiguration {
    Variable { value: StampedValue },
    Definition { expr: Expr<Address>, inputs: Vec<(Address, InputMetadata)> },
}

/// What a granted lock tells the transaction about the node it locked.
#[derive(Debug, PartialEq, Eq)]
pub enum NodeKind {
    /// A variable, with the iteration of its last write.
    Variable { iteration: Iteration },
    /// A definition, with the variables that its value derives from.
    Definition { ancestors: AddressSet },
}

/// A message from one actor to another.
#[derive(Debug, PartialEq, Eq)]
pub enum Message {
    /// Sent by the router in place of an answer: `message` could not be
    /// delivered, because its target has retired.
    Unreachable { message: Box<Message> },
    /// A node tells a subscriber its new value.
    Propagate { sender: Address, value: StampedValue },
    /// A transaction asks for a lock.
    Lock { txid: TxId, kind: LockKind },
    /// A node grants a lock.
    LockGranted { txid: TxId, address: Address, node_kind: NodeKind, version: Version },
    /// A holder of a shared lock asks for the value, as of `basis` or later.
    Read { txid: TxId, basis: BasisStamp },
    /// The answer to a read.
    ReadResult { txid: TxId, address: Address, value: StampedValue },
    /// The holder of the exclusive lock stages a new value.
    Write { txid: TxId, value: Value },
    /// The holder of the exclusive lock stages a new configuration.
    Reconfigure { txid: TxId, configuration: ReactiveConfiguration },
    /// The holder of the exclusive lock stages the node's retirement.
    Retire { txid: TxId },
    /// A holder of a shared lock stages changes to the subscribers: `true`
    /// subscribes an address, `false` unsubscribes it.
    UpdateSubscriptions { txid: TxId, changes: AddressMap<bool> },
    /// A node asks a holder to give its lock up to an older transaction.
    Preempt { txid: TxId },
    /// A transaction gives a lock up and drops what it staged.
    Abort { txid: TxId },
    /// A transaction commits what it staged, stamped with `basis`, and gives
    /// the lock up.
    Release { txid: TxId, basis: BasisStamp },
    /// A manager tells another what its directory knows.
    Directory { state: DirectoryState },
    /// A client asks a manager to carry out an action.
    Do { action: Action },
    /// A client asks a manager to carry out an upgrade.
    Upgrade { upgrade: Upgrade },
}

impl Message {
    /// Whether the message carries a propagated value.
    pub fn is_propagate(&self) -> (b: bool)
        ensures
            b == (*self is Propagate),
    {
        match self {
            Message::Propagate { .. } => true,
            _ => false,
        }
    }

    /// Whether the message is the router's notice of an unreachable target.
    pub fn is_unreachable(&self) -> (b: bool)
        ensures
            b == (*self is Unreachable),
    {
        match self {
            Message::Unreachable { .. } => true,
            _ => false,
        }
    }
}

/// The ways in which a message can break the protocol of a reactive node.
#[derive(Debug, Clone, Copy, PartialEq, Eq, Structural)]
pub enum Violation {
    /// A lock was requested by a transaction that is already queued for it.
    DoubleLock,
    /// A lock was aborted by a transaction that does not hold it.
    AbortUnheld,
    /// A lock was released by a transaction that does not hold it.
    ReleaseUnheld,
    /// A shared lock was needed and not held.
    NoSharedLock,
    /// The exclusive lock was needed and not held.
    NoExclusiveLock,
    /// A write was sent to a definition, or after a definition was staged.
    WriteToDefinition,
    /// A write or a new configuration was sent after the node's retirement
    /// had been staged.
    AfterRetire,
    /// A new configuration was sent after a write had been staged under the
    /// same lock: the written value would be lost.
    ReconfigureAfterWrite,
    /// A variable received a propagated value.
    PropagateToVariable,
    /// A definition received a value from a node that is not one of its
    /// inputs.
    UnknownInput,
    /// A new configuration was to be committed by a node that has used up its
    /// versions.
    VersionExhausted,
    /// A manager was to start a transaction after its clock had run out of
    /// timestamps.
    TimestampsExhausted,
    /// A message named a transaction that the manager does not know.
    UnknownTransaction,
    /// The message is not one that the actor handles.
    Unexpected,
}

} // verus!
